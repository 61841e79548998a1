//! The order in which the memory subsystem comes up at boot.

use vstd::prelude::*;
use crate::memory::dynamicmemory::{HeapAllocator, Privilege};
use crate::memory::physicalmemory::{
    PhysicalMemory,
    PhysicalMemoryError,
    fixed_runs,
    law_boot_frames_are_marked,
    region_runs,
    seed_runs,
};
use crate::memory::virtualmemory::{
    boot_pages,
    PDA,
    PageDirectory,
    PagingError,
    lemma_word_frame,
    word_frame,
    word_present,
};
use crate::sys::multiboot::{entries_of, find_tag, is_multiboot2, memory_map, MEMORY_MAP_TAG};

verus! {

/// The window of the user heap.
pub const USER_HEAP_START: usize = 0x30_0000;

pub const USER_HEAP_END: usize = 0x800B_5000;

/// The window of the kernel heap.
pub const KERNEL_HEAP_START: usize = 0x800B_6000;

pub const KERNEL_HEAP_END: usize = 0xBFFE_0000;

/// Why the memory subsystem did not come up.
#[derive(Debug, Clone, Copy, PartialEq, Eq, Structural)]
pub enum BootError {
    /// The loader did not hand over the Multiboot2 magic.
    NotMultiboot,
    /// The boot information holds no memory map.
    NoMemoryMap,
    /// Seeding the frame bitmap failed.
    Frames(PhysicalMemoryError),
    /// Building the address space or a heap window failed.
    Paging(PagingError),
}

/// A heap that fits a directory and a bitmap fits every directory and
/// bitmap that differ from them only in page tables which were missing
/// and were added without a frame of the bitmap.
proof fn lemma_heap_unaffected(
    heap: &HeapAllocator,
    dir: &PageDirectory,
    bitmap: &PhysicalMemory,
    post_dir: &PageDirectory,
    post_bitmap: &PhysicalMemory,
    low: int,
    high: int,
)
    requires
        heap.inv(dir, bitmap),
        0 <= low <= high <= 1024,
        dir.tables_ensured(bitmap, post_dir, post_bitmap, low, high),
        forall|i: int| low <= i < high ==> word_present(#[trigger] dir.pde(i)),
    ensures
        heap.inv(post_dir, post_bitmap),
{
    assert forall|frame: int| heap.owns_frame(frame) implies !post_bitmap@.contains(frame) by {
        if post_bitmap@.contains(frame) && !bitmap@.contains(frame) {
            let i = choose|i: int|
                low <= i < high && 0 <= i < 1024 && !word_present(dir.pde(i)) && word_frame(
                    #[trigger] post_dir.pde(i),
                ) as int == frame * 0x1000;
            assert(word_present(dir.pde(i)));
        }
    }
    if heap.paging() {
        assert forall|page: int|
            heap.cursor() as int / 0x1000 <= page < heap.window_end() as int
                / 0x1000 implies #[trigger] post_dir.mappable(page) by {
            assert(dir.mappable(page));
            let i = page / 1024;
            assert(0 <= i < 1024);
            assert(post_dir.pde(i) == dir.pde(i));
            assert(post_dir.pte(i, page % 1024) == dir.pte(i, page % 1024));
        }
    }
}

/// What a step that failed with `e` leaves of boot: the error goes out
/// as it came, and the state is the one that the step left.
pub open spec fn ended(
    dir: &PageDirectory,
    bitmap: &PhysicalMemory,
    user: &HeapAllocator,
    kernel: &HeapAllocator,
    post_dir: &PageDirectory,
    post_bitmap: &PhysicalMemory,
    post_user: &HeapAllocator,
    post_kernel: &HeapAllocator,
    e: BootError,
    r: Result<(), BootError>,
) -> bool {
    &&& r == Err::<(), BootError>(e)
    &&& *post_dir == *dir
    &&& *post_bitmap == *bitmap
    &&& *post_user == *user
    &&& *post_kernel == *kernel
}

/// The last step of boot: the user heap takes over its window by the
/// contract of its `init`, then the kernel heap does. The first of them
/// that fails ends the work with its error.
pub open spec fn heaps_taken(
    dir: &PageDirectory,
    bitmap: &PhysicalMemory,
    user: &HeapAllocator,
    kernel: &HeapAllocator,
    post_dir: &PageDirectory,
    post_bitmap: &PhysicalMemory,
    post_user: &HeapAllocator,
    post_kernel: &HeapAllocator,
    paging_status: bool,
    r: Result<(), BootError>,
) -> bool {
    exists|mid_dir: PageDirectory, mid_bitmap: PhysicalMemory, first: Result<(), PagingError>|
        {
            &&& #[trigger] user.init_post(
                dir,
                bitmap,
                post_user,
                &mid_dir,
                &mid_bitmap,
                USER_HEAP_START,
                USER_HEAP_END,
                Privilege::User,
                paging_status,
                first,
            )
            &&& match first {
                Err(e) => ended(
                    &mid_dir,
                    &mid_bitmap,
                    post_user,
                    kernel,
                    post_dir,
                    post_bitmap,
                    post_user,
                    post_kernel,
                    BootError::Paging(e),
                    r,
                ),
                Ok(()) => exists|second: Result<(), PagingError>|
                    {
                        &&& #[trigger] kernel.init_post(
                            &mid_dir,
                            &mid_bitmap,
                            post_kernel,
                            post_dir,
                            post_bitmap,
                            KERNEL_HEAP_START,
                            KERNEL_HEAP_END,
                            Privilege::Kernel,
                            paging_status,
                            second,
                        )
                        &&& r == match second {
                            Ok(()) => Ok::<(), BootError>(()),
                            Err(e) => Err::<(), BootError>(BootError::Paging(e)),
                        }
                    },
            }
        }
}

/// The step of boot before the last, with paging: the page tables of
/// the user window are put in place by the contract of
/// `init_directory`, then those of the kernel window, then the heaps
/// take over. The first step that fails ends the work with its error.
pub open spec fn windows_prepared(
    dir: &PageDirectory,
    bitmap: &PhysicalMemory,
    user: &HeapAllocator,
    kernel: &HeapAllocator,
    post_dir: &PageDirectory,
    post_bitmap: &PhysicalMemory,
    post_user: &HeapAllocator,
    post_kernel: &HeapAllocator,
    r: Result<(), BootError>,
) -> bool {
    exists|mid_dir: PageDirectory, mid_bitmap: PhysicalMemory, first: Result<(), PagingError>|
        {
            &&& #[trigger] dir.init_directory_post(
                bitmap,
                &mid_dir,
                &mid_bitmap,
                USER_HEAP_START,
                USER_HEAP_END,
                first,
            )
            &&& match first {
                Err(e) => ended(
                    &mid_dir,
                    &mid_bitmap,
                    user,
                    kernel,
                    post_dir,
                    post_bitmap,
                    post_user,
                    post_kernel,
                    BootError::Paging(e),
                    r,
                ),
                Ok(()) => exists|
                    last_dir: PageDirectory,
                    last_bitmap: PhysicalMemory,
                    second: Result<(), PagingError>,
                |
                    {
                        &&& #[trigger] mid_dir.init_directory_post(
                            &mid_bitmap,
                            &last_dir,
                            &last_bitmap,
                            KERNEL_HEAP_START,
                            KERNEL_HEAP_END,
                            second,
                        )
                        &&& match second {
                            Err(e) => ended(
                                &last_dir,
                                &last_bitmap,
                                user,
                                kernel,
                                post_dir,
                                post_bitmap,
                                post_user,
                                post_kernel,
                                BootError::Paging(e),
                                r,
                            ),
                            Ok(()) => heaps_taken(
                                &last_dir,
                                &last_bitmap,
                                user,
                                kernel,
                                post_dir,
                                post_bitmap,
                                post_user,
                                post_kernel,
                                true,
                                r,
                            ),
                        }
                    },
            }
        }
}

/// What boot does once the bitmap is seeded. Without paging the heaps
/// take over at once. With paging the address space is built first, by
/// the contract of its `init`, then the windows are prepared.
pub open spec fn memory_raised(
    dir: &PageDirectory,
    bitmap: &PhysicalMemory,
    user: &HeapAllocator,
    kernel: &HeapAllocator,
    post_dir: &PageDirectory,
    post_bitmap: &PhysicalMemory,
    post_user: &HeapAllocator,
    post_kernel: &HeapAllocator,
    kernel_start: usize,
    kernel_end: usize,
    multiboot_info: usize,
    paging_status: bool,
    r: Result<(), BootError>,
) -> bool {
    if !paging_status {
        heaps_taken(
            dir,
            bitmap,
            user,
            kernel,
            post_dir,
            post_bitmap,
            post_user,
            post_kernel,
            false,
            r,
        )
    } else {
        exists|mid_dir: PageDirectory, mid_bitmap: PhysicalMemory, first: Result<(), PagingError>|
            {
                &&& #[trigger] dir.init_post(
                    bitmap,
                    &mid_dir,
                    &mid_bitmap,
                    kernel_start,
                    kernel_end,
                    multiboot_info,
                    first,
                )
                &&& match first {
                    Err(e) => ended(
                        &mid_dir,
                        &mid_bitmap,
                        user,
                        kernel,
                        post_dir,
                        post_bitmap,
                        post_user,
                        post_kernel,
                        BootError::Paging(e),
                        r,
                    ),
                    Ok(()) => windows_prepared(
                        &mid_dir,
                        &mid_bitmap,
                        user,
                        kernel,
                        post_dir,
                        post_bitmap,
                        post_user,
                        post_kernel,
                        r,
                    ),
                }
            }
    }
}

/// The contract of `init`: without the loader's magic, or without a
/// memory map in the boot information, nothing is touched. Else the
/// bitmap is seeded by the contract of the frame allocator's `init`; if
/// that fails, its error ends the work; else what `memory_raised`
/// states.
pub open spec fn init_post(
    dir: &PageDirectory,
    bitmap: &PhysicalMemory,
    user: &HeapAllocator,
    kernel: &HeapAllocator,
    post_dir: &PageDirectory,
    post_bitmap: &PhysicalMemory,
    post_user: &HeapAllocator,
    post_kernel: &HeapAllocator,
    magic: u32,
    info: Seq<u8>,
    kernel_start: usize,
    kernel_end: usize,
    multiboot_info: usize,
    paging_status: bool,
    r: Result<(), BootError>,
) -> bool {
    if magic != crate::sys::multiboot::BOOTLOADER_MAGIC {
        ended(
            dir,
            bitmap,
            user,
            kernel,
            post_dir,
            post_bitmap,
            post_user,
            post_kernel,
            BootError::NotMultiboot,
            r,
        )
    } else if find_tag(info, 8, MEMORY_MAP_TAG) is None {
        ended(
            dir,
            bitmap,
            user,
            kernel,
            post_dir,
            post_bitmap,
            post_user,
            post_kernel,
            BootError::NoMemoryMap,
            r,
        )
    } else {
        exists|seeded: PhysicalMemory, first: Result<(), PhysicalMemoryError>|
            {
                &&& #[trigger] crate::memory::physicalmemory::init_post(
                    bitmap,
                    &seeded,
                    entries_of(info, find_tag(info, 8, MEMORY_MAP_TAG).unwrap()),
                    kernel_start,
                    kernel_end,
                    multiboot_info,
                    first,
                )
                &&& match first {
                    Err(e) => ended(
                        dir,
                        &seeded,
                        user,
                        kernel,
                        post_dir,
                        post_bitmap,
                        post_user,
                        post_kernel,
                        BootError::Frames(e),
                        r,
                    ),
                    Ok(()) => memory_raised(
                        dir,
                        &seeded,
                        user,
                        kernel,
                        post_dir,
                        post_bitmap,
                        post_user,
                        post_kernel,
                        kernel_start,
                        kernel_end,
                        multiboot_info,
                        paging_status,
                        r,
                    ),
                }
            }
    }
}

/// Brings up the frame bitmap, the address space and the two heaps.
///
/// The bitmap is seeded from the memory map of the boot information and
/// the places the kernel occupies. With paging the boot pages are mapped
/// onto themselves and the recursive entry is set; then the page tables
/// of both heap windows are put in place before either heap takes its
/// frames, so that no page table comes to lie in a frame that a heap
/// holds free. At last the user heap and the kernel heap take over their
/// windows.
pub fn init(
    bitmap: &mut PhysicalMemory,
    dir: &mut PageDirectory,
    user: &mut HeapAllocator,
    kernel: &mut HeapAllocator,
    magic: u32,
    info: &[u8],
    kernel_start: usize,
    kernel_end: usize,
    multiboot_info: usize,
    paging_status: bool,
) -> (r: Result<(), BootError>)
    requires
        old(dir).wf(),
    ensures
        final(dir).wf(),
        final(dir).frame() == old(dir).frame(),
        init_post(
            old(dir),
            old(bitmap),
            old(user),
            old(kernel),
            final(dir),
            final(bitmap),
            final(user),
            final(kernel),
            magic,
            info@,
            kernel_start,
            kernel_end,
            multiboot_info,
            paging_status,
            r,
        ),
        r is Ok ==> {
            &&& magic == crate::sys::multiboot::BOOTLOADER_MAGIC
            &&& final(user).inv(final(dir), final(bitmap))
            &&& final(kernel).inv(final(dir), final(bitmap))
            &&& final(user).apart(final(kernel))
            &&& final(user).privilege() == Privilege::User
            &&& final(kernel).privilege() == Privilege::Kernel
            &&& final(user).paging() == paging_status
            &&& final(kernel).paging() == paging_status
            &&& final(user).cursor() == USER_HEAP_START
            &&& final(user).window_end() == USER_HEAP_END
            &&& final(kernel).cursor() == KERNEL_HEAP_START
            &&& final(kernel).window_end() == KERNEL_HEAP_END
            &&& paging_status ==> final(dir).self_mapped() && final(dir).recursive()
            &&& paging_status && old(dir).frame() == PDA && !boot_pages(
                kernel_start,
                kernel_end,
                multiboot_info,
            ).contains(PDA as int / 0x1000) ==> {
                &&& final(dir).consistent(final(bitmap))
                &&& final(dir).exclusive()
            }
        },
        r is Ok ==> forall|frame: int|
            seed_runs(
                old(bitmap)@,
                region_runs(entries_of(info@, find_tag(info@, 8, MEMORY_MAP_TAG).unwrap()))
                    + fixed_runs(kernel_start, kernel_end),
            ).0.contains(frame) ==> final(bitmap)@.contains(frame),
        !paging_status ==> (r is Ok <==> magic == crate::sys::multiboot::BOOTLOADER_MAGIC && find_tag(
            info@,
            8,
            MEMORY_MAP_TAG,
        ) is Some && seed_runs(
            old(bitmap)@,
            region_runs(entries_of(info@, find_tag(info@, 8, MEMORY_MAP_TAG).unwrap()))
                + fixed_runs(kernel_start, kernel_end),
        ).1 is None),
        forall|e: PagingError| r == Err::<(), BootError>(BootError::Paging(e)) ==> paging_status,
        r == Err::<(), BootError>(BootError::NotMultiboot) <==> magic
            != crate::sys::multiboot::BOOTLOADER_MAGIC,
        r == Err::<(), BootError>(BootError::NoMemoryMap) <==> magic
            == crate::sys::multiboot::BOOTLOADER_MAGIC && find_tag(info@, 8, MEMORY_MAP_TAG) is None,
        forall|cause: PhysicalMemoryError|
            r == Err::<(), BootError>(BootError::Frames(cause)) <==> magic
                == crate::sys::multiboot::BOOTLOADER_MAGIC && find_tag(info@, 8, MEMORY_MAP_TAG)
                is Some && seed_runs(
                old(bitmap)@,
                region_runs(entries_of(info@, find_tag(info@, 8, MEMORY_MAP_TAG).unwrap()))
                    + fixed_runs(kernel_start, kernel_end),
            ).1 == Some(cause),
{
    if !is_multiboot2(magic) {
        return Err(BootError::NotMultiboot);
    }
    let map = match memory_map(info) {
        Some(map) => map,
        None => {
            return Err(BootError::NoMemoryMap);
        },
    };
    let ghost unseeded = *bitmap;
    match crate::memory::physicalmemory::init(
        bitmap,
        map.as_slice(),
        kernel_start,
        kernel_end,
        multiboot_info,
    ) {
        Ok(()) => {},
        Err(e) => {
            return Err(BootError::Frames(e));
        },
    }
    let ghost plan = boot_pages(kernel_start, kernel_end, multiboot_info);
    let ghost clean = old(dir).frame() == PDA && !plan.contains(PDA as int / 0x1000);
    if paging_status {
        let ghost seeded = *bitmap;
        match crate::memory::virtualmemory::init(
            dir,
            bitmap,
            kernel_start,
            kernel_end,
            multiboot_info,
        ) {
            Ok(()) => {},
            Err(e) => {
                return Err(BootError::Paging(e));
            },
        }
        proof {
            if clean {
                assert forall|n: int| 0 <= n < plan.len() implies seeded@.contains(
                    #[trigger] plan[n],
                ) by {
                    assert(0 <= plan[n] < 0xFFC00);
                    law_boot_frames_are_marked(
                        &unseeded,
                        &seeded,
                        map@,
                        kernel_start,
                        kernel_end,
                        multiboot_info,
                        plan[n],
                    );
                }
                law_boot_frames_are_marked(
                    &unseeded,
                    &seeded,
                    map@,
                    kernel_start,
                    kernel_end,
                    multiboot_info,
                    PDA as int / 0x1000,
                );
            }
        }
        let ghost mapped = *dir;
        let ghost mapped_bitmap = *bitmap;
        let user_tables = dir.init_directory(bitmap, USER_HEAP_START, USER_HEAP_END);
        proof {
            if clean {
                mapped.law_init_directory_keeps_consistency(
                    &mapped_bitmap,
                    &*dir,
                    &*bitmap,
                    USER_HEAP_START,
                    USER_HEAP_END,
                    user_tables,
                );
            }
        }
        match user_tables {
            Ok(()) => {},
            Err(e) => {
                return Err(BootError::Paging(e));
            },
        }
        let ghost before = *dir;
        let ghost before_bitmap = *bitmap;
        let kernel_tables = dir.init_directory(bitmap, KERNEL_HEAP_START, KERNEL_HEAP_END);
        proof {
            if clean {
                before.law_init_directory_keeps_consistency(
                    &before_bitmap,
                    &*dir,
                    &*bitmap,
                    KERNEL_HEAP_START,
                    KERNEL_HEAP_END,
                    kernel_tables,
                );
            }
        }
        match kernel_tables {
            Ok(()) => {},
            Err(e) => {
                return Err(BootError::Paging(e));
            },
        }
        proof {
            assert(dir.pde(1023) == before.pde(1023));
        }
    }
    let ghost tables = *dir;
    let ghost tables_bitmap = *bitmap;
    proof {
        if paging_status {
            assert forall|i: int| 0x200 <= i < 0x300 implies word_present(#[trigger] tables.pde(i)) by {
                lemma_word_frame(tables.pde(i));
            }
        }
    }
    match user.init(dir, bitmap, USER_HEAP_START, USER_HEAP_END, Privilege::User, paging_status) {
        Ok(()) => {},
        Err(e) => {
            return Err(BootError::Paging(e));
        },
    }
    let ghost user_dir = *dir;
    let ghost user_bitmap = *bitmap;
    proof {
        if paging_status {
            if clean {
                tables.law_init_directory_keeps_consistency(
                    &tables_bitmap,
                    &user_dir,
                    &user_bitmap,
                    USER_HEAP_START,
                    USER_HEAP_END,
                    Ok::<(), PagingError>(()),
                );
            }
            assert(user_dir.pde(1023) == tables.pde(1023));
            assert forall|i: int| 0x200 <= i < 0x300 implies word_present(
                #[trigger] user_dir.pde(i),
            ) by {
                assert(word_present(tables.pde(i)));
                assert(user_dir.pde(i) == tables.pde(i));
            }
        }
    }
    match kernel.init(
        dir,
        bitmap,
        KERNEL_HEAP_START,
        KERNEL_HEAP_END,
        Privilege::Kernel,
        paging_status,
    ) {
        Ok(()) => {},
        Err(e) => {
            return Err(BootError::Paging(e));
        },
    }
    proof {
        user.law_heaps_in_ranges_keep_apart(
            &*kernel,
            USER_HEAP_START,
            USER_HEAP_END,
            KERNEL_HEAP_START,
            KERNEL_HEAP_END,
        );
        if paging_status {
            assert(KERNEL_HEAP_START as int / 0x40_0000 == 0x200);
            assert((KERNEL_HEAP_END as int + 0x3F_FFFF) / 0x40_0000 == 0x300);
            lemma_heap_unaffected(&*user, &user_dir, &user_bitmap, &*dir, &*bitmap, 0x200, 0x300);
            assert(dir.pde(1023) == user_dir.pde(1023));
            if clean {
                user_dir.law_init_directory_keeps_consistency(
                    &user_bitmap,
                    &*dir,
                    &*bitmap,
                    KERNEL_HEAP_START,
                    KERNEL_HEAP_END,
                    Ok::<(), PagingError>(()),
                );
            }
        }
    }
    Ok(())
}

} // verus!
