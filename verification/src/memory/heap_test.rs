//! Exercises of the heaps: fixed sequences of requests that a kernel can
//! run after boot to see its heaps at work.

use vstd::prelude::*;
use crate::memory::dynamicmemory::{block_size, HeapAllocator, HeapError, Layout, Privilege, MAX_ORDER};
use crate::memory::physicalmemory::PhysicalMemory;
use crate::memory::virtualmemory::PageDirectory;

verus! {

/// Asks the kernel heap twice for 4097 bytes and gives the first block
/// back. Returns whether both requests were served.
pub fn kalloc_test(heap: &mut HeapAllocator, dir: &mut PageDirectory, bitmap: &mut PhysicalMemory) -> (served:
    bool)
    requires
        old(heap).inv(old(dir), old(bitmap)),
        old(heap).privilege() == Privilege::Kernel,
    ensures
        final(heap).inv(final(dir), final(bitmap)),
        final(heap).privilege() == Privilege::Kernel,
        kalloc_test_post(
            old(heap),
            old(dir),
            old(bitmap),
            final(heap),
            final(dir),
            final(bitmap),
            served,
        ),
        served <==> two_blocks_at_hand(old(heap)),
        served ==> final(heap).cursor() == old(heap).cursor() + 2 * 0x2000,
        !served ==> final(heap).cursor() == old(heap).cursor() || final(heap).cursor() == old(
            heap,
        ).cursor() + 0x2000,
{
    proof {
        crate::memory::dynamicmemory::lemma_fit_order(4097, 1);
        crate::memory::dynamicmemory::lemma_block_pages(1);
        crate::memory::dynamicmemory::lemma_block_pages(0);
    }
    let first = match heap.kallocate(dir, bitmap, 4097) {
        Some(address) => address,
        None => {
            return false;
        },
    };
    proof {
        lemma_privilege_kept(old(heap), old(dir), old(bitmap), &*heap, &*dir, &*bitmap, 4097, Some(first));
        old(heap).lemma_first_stocked(1);
        lemma_stock_after_one(old(heap), &*heap);
    }
    let ghost mid = *heap;
    let ghost mid_dir = *dir;
    let ghost mid_bitmap = *bitmap;
    let second = heap.kallocate(dir, bitmap, 4097);
    proof {
        lemma_privilege_kept(&mid, &mid_dir, &mid_bitmap, &*heap, &*dir, &*bitmap, 4097, second);
    }
    let _ = heap.kdeallocate(dir, bitmap, first, 4097);
    proof {
        crate::memory::dynamicmemory::lemma_fit_order_holds(4097);
        assert(second_block_asked(
            &mid,
            &mid_dir,
            &mid_bitmap,
            &*heap,
            &*dir,
            &*bitmap,
            first,
            second.is_some(),
        ));
    }
    second.is_some()
}

/// A kernel allocation leaves the heap with its domain.
proof fn lemma_privilege_kept(
    heap: &HeapAllocator,
    dir: &PageDirectory,
    bitmap: &PhysicalMemory,
    post: &HeapAllocator,
    post_dir: &PageDirectory,
    post_bitmap: &PhysicalMemory,
    size: usize,
    r: Option<usize>,
)
    requires
        heap.kallocate_post(dir, bitmap, post, post_dir, post_bitmap, size, r),
    ensures
        post.privilege() == heap.privilege(),
{
    crate::memory::dynamicmemory::lemma_fit_order_holds(size as int);
}

/// Serves one request and, if it was served, notes it.
fn request(
    heap: &mut HeapAllocator,
    dir: &mut PageDirectory,
    bitmap: &mut PhysicalMemory,
    size: usize,
    blocks: &mut Vec<(usize, Layout)>,
)
    requires
        old(heap).inv(old(dir), old(bitmap)),
    ensures
        final(heap).inv(final(dir), final(bitmap)),
        final(heap).privilege() == old(heap).privilege(),
        request_post(
            old(heap),
            old(dir),
            old(bitmap),
            final(heap),
            final(dir),
            final(bitmap),
            size,
            old(blocks)@,
            final(blocks)@,
        ),
{
    let layout = Layout { size, align: 4096 };
    let address = heap.allocate(dir, bitmap, layout);
    proof {
        old(heap).law_allocation_effect(old(dir), old(bitmap), &*heap, &*dir, &*bitmap, layout, address);
    }
    match address {
        Some(address) => {
            blocks.push((address, layout));
        },
        None => {},
    }
}

/// Asks a heap for blocks of 10 and 20 bytes, 64 KiB, 256 KiB and
/// 512 KiB and, with paging, for 64 MiB, 128 MiB and 180 MiB, and gives
/// every block that was served back. Returns how many requests were
/// served.
pub fn user_alloc_test(
    heap: &mut HeapAllocator,
    dir: &mut PageDirectory,
    bitmap: &mut PhysicalMemory,
    paging_status: bool,
) -> (served: usize)
    requires
        old(heap).inv(old(dir), old(bitmap)),
    ensures
        final(heap).inv(final(dir), final(bitmap)),
        final(heap).privilege() == old(heap).privilege(),
        user_alloc_test_post(
            old(heap),
            old(dir),
            old(bitmap),
            final(heap),
            final(dir),
            final(bitmap),
            paging_status,
            served,
        ),
        served <= sizes_asked(paging_status).len(),
        served <= 8,
        !paging_status ==> served <= 5,
{
    let sizes: [usize; 8] = [10, 20, 65536, 262144, 524288, 67108864, 134217728, 188743680];
    let count: usize = if paging_status {
        8
    } else {
        5
    };
    let ghost asked = sizes_asked(paging_status);
    let ghost start = *heap;
    let ghost start_dir = *dir;
    let ghost start_bitmap = *bitmap;
    let mut blocks: Vec<(usize, Layout)> = Vec::new();
    let mut i: usize = 0;
    proof {
        assert(sizes@ =~= all_sizes());
        assert(asked.take(0) =~= Seq::<usize>::empty());
        assert(blocks@ =~= Seq::<(usize, Layout)>::empty());
    }
    while i < count
        invariant
            i <= count <= 8,
            asked.len() == count,
            forall|j: int| 0 <= j < count ==> sizes@[j] == asked[j],
            heap.inv(&*dir, &*bitmap),
            heap.privilege() == start.privilege(),
            blocks@.len() <= i,
            requests_made(
                &start,
                &start_dir,
                &start_bitmap,
                asked.take(i as int),
                &*heap,
                &*dir,
                &*bitmap,
                blocks@,
            ),
        decreases count - i,
    {
        let ghost mid = *heap;
        let ghost mid_dir = *dir;
        let ghost mid_bitmap = *bitmap;
        let ghost mid_noted = blocks@;
        request(heap, dir, bitmap, sizes[i], &mut blocks);
        proof {
            let next = asked.take(i + 1);
            assert(next.drop_last() =~= asked.take(i as int));
            assert(next.last() == sizes@[i as int]);
            assert(requests_made(
                &start,
                &start_dir,
                &start_bitmap,
                next.drop_last(),
                &mid,
                &mid_dir,
                &mid_bitmap,
                mid_noted,
            ));
            assert(request_post(
                &mid,
                &mid_dir,
                &mid_bitmap,
                &*heap,
                &*dir,
                &*bitmap,
                next.last(),
                mid_noted,
                blocks@,
            ));
            assert(next.len() > 0);
            assert(requests_made(&start, &start_dir, &start_bitmap, next, &*heap, &*dir, &*bitmap, blocks@));
        }
        i += 1;
    }
    let served = blocks.len();
    let ghost full = *heap;
    let ghost full_dir = *dir;
    let ghost full_bitmap = *bitmap;
    let mut i: usize = 0;
    proof {
        assert(asked.take(count as int) =~= asked);
        assert(blocks@.take(0) =~= Seq::<(usize, Layout)>::empty());
    }
    while i < blocks.len()
        invariant
            i <= blocks@.len(),
            heap.inv(&*dir, &*bitmap),
            heap.privilege() == start.privilege(),
            blocks_returned(
                &full,
                &full_dir,
                &full_bitmap,
                blocks@.take(i as int),
                &*heap,
                &*dir,
                &*bitmap,
            ),
        decreases blocks@.len() - i,
    {
        let ghost mid = *heap;
        let ghost mid_dir = *dir;
        let ghost mid_bitmap = *bitmap;
        let (address, layout) = blocks[i];
        let r = heap.deallocate(dir, bitmap, address, layout);
        proof {
            mid.law_deallocation_effect(&mid_dir, &mid_bitmap, &*heap, &*dir, &*bitmap, address, layout, r);
            let next = blocks@.take(i + 1);
            assert(next.drop_last() =~= blocks@.take(i as int));
            assert(next.last() == (address, layout));
            assert(block_returned(&mid, &mid_dir, &mid_bitmap, &*heap, &*dir, &*bitmap, next.last()));
            assert(blocks_returned(
                &full,
                &full_dir,
                &full_bitmap,
                next.drop_last(),
                &mid,
                &mid_dir,
                &mid_bitmap,
            ));
            assert(next.len() > 0);
            assert(blocks_returned(&full, &full_dir, &full_bitmap, next, &*heap, &*dir, &*bitmap));
        }
        i += 1;
    }
    proof {
        assert(blocks@.take(blocks@.len() as int) =~= blocks@);
    }
    served
}

/// Runs both exercises on the kernel heap. Returns whether every request
/// was served.
pub fn alloc_test(
    heap: &mut HeapAllocator,
    dir: &mut PageDirectory,
    bitmap: &mut PhysicalMemory,
    paging_status: bool,
) -> (served: bool)
    requires
        old(heap).inv(old(dir), old(bitmap)),
        old(heap).privilege() == Privilege::Kernel,
    ensures
        final(heap).inv(final(dir), final(bitmap)),
        final(heap).privilege() == Privilege::Kernel,
        alloc_test_post(
            old(heap),
            old(dir),
            old(bitmap),
            final(heap),
            final(dir),
            final(bitmap),
            paging_status,
            served,
        ),
{
    let count = user_alloc_test(heap, dir, bitmap, paging_status);
    let expected: usize = if paging_status {
        8
    } else {
        5
    };
    let both = kalloc_test(heap, dir, bitmap);
    both && count == expected
}

/// The contract of `kalloc_test`: a kernel request of 4097 bytes; if it
/// is refused, nothing more happens and the answer is no; else what
/// `second_block_asked` states.
pub open spec fn kalloc_test_post(
    heap: &HeapAllocator,
    dir: &PageDirectory,
    bitmap: &PhysicalMemory,
    post: &HeapAllocator,
    post_dir: &PageDirectory,
    post_bitmap: &PhysicalMemory,
    served: bool,
) -> bool {
    exists|
        mid: HeapAllocator,
        mid_dir: PageDirectory,
        mid_bitmap: PhysicalMemory,
        first: Option<usize>,
    |
        {
            &&& #[trigger] heap.kallocate_post(dir, bitmap, &mid, &mid_dir, &mid_bitmap, 4097, first)
            &&& match first {
                Some(address) => second_block_asked(
                    &mid,
                    &mid_dir,
                    &mid_bitmap,
                    post,
                    post_dir,
                    post_bitmap,
                    address,
                    served,
                ),
                None => !served && *post == mid && *post_dir == mid_dir && *post_bitmap == mid_bitmap,
            }
        }
}

/// What `kalloc_test` does once its first request was served with the
/// block under `first`: a second kernel request of 4097 bytes, then the
/// first block is given back, whether or not the heap takes it. `served`
/// tells whether the second request was served.
pub open spec fn second_block_asked(
    heap: &HeapAllocator,
    dir: &PageDirectory,
    bitmap: &PhysicalMemory,
    post: &HeapAllocator,
    post_dir: &PageDirectory,
    post_bitmap: &PhysicalMemory,
    first: usize,
    served: bool,
) -> bool {
    exists|
        mid: HeapAllocator,
        mid_dir: PageDirectory,
        mid_bitmap: PhysicalMemory,
        second: Option<usize>,
        r: Result<(), HeapError>,
    |
        {
            &&& #[trigger] heap.kallocate_post(dir, bitmap, &mid, &mid_dir, &mid_bitmap, 4097, second)
            &&& #[trigger] mid.kdeallocate_post(
                &mid_dir,
                &mid_bitmap,
                post,
                post_dir,
                post_bitmap,
                first,
                4097,
                r,
            )
            &&& served == second is Some
        }
}

/// Whether a heap has what two kernel requests of 4097 bytes in a row
/// take: room in its window for two blocks of two pages, and two such
/// blocks to hand out, be it from the list of that order or split from a
/// larger block.
pub open spec fn two_blocks_at_hand(heap: &HeapAllocator) -> bool {
    let j = heap.first_stocked(1);
    &&& heap.cursor() + 2 * block_size(1) <= heap.window_end()
    &&& j <= MAX_ORDER
    &&& (j > 1 || heap.list(1).len() >= 2 || heap.first_stocked(2) <= MAX_ORDER)
}

/// Heaps whose lists agree from `from` up have the same first stocked
/// list from there.
proof fn lemma_first_stocked_same(heap: &HeapAllocator, other: &HeapAllocator, from: int)
    requires
        0 <= from <= 11,
        forall|k: int| from <= k <= MAX_ORDER ==> #[trigger] other.list(k) == heap.list(k),
    ensures
        other.first_stocked(from) == heap.first_stocked(from),
    decreases 11 - from,
{
    if from <= MAX_ORDER {
        assert(other.list(from) == heap.list(from));
        lemma_first_stocked_same(heap, other, from + 1);
    }
}

/// After one block of order one was handed out, another is in stock
/// exactly if the first was split from a larger block, or list one held
/// two, or a larger list is stocked.
proof fn lemma_stock_after_one(heap: &HeapAllocator, post: &HeapAllocator)
    requires
        heap.wf(),
        heap.first_stocked(1) <= MAX_ORDER,
        heap.split_from(post, heap.first_stocked(1), 1),
    ensures
        post.first_stocked(1) <= MAX_ORDER <==> heap.first_stocked(1) > 1 || heap.list(1).len() >= 2
            || heap.first_stocked(2) <= MAX_ORDER,
{
    let j = heap.first_stocked(1);
    heap.lemma_first_stocked(1);
    if j > 1 {
        assert(heap.list(1).len() == 0);
        assert(post.list(1) == heap.list(1).push((heap.list(j).last() + block_size(1)) as usize));
    } else {
        assert(post.list(1) == heap.list(1).drop_last());
        if heap.list(1).len() < 2 {
            assert forall|k: int| 2 <= k <= MAX_ORDER implies #[trigger] post.list(k) == heap.list(k) by {}
            lemma_first_stocked_same(heap, post, 2);
        }
    }
}

/// The layout of a request of `size` bytes that begins on a page.
pub open spec fn page_layout(size: usize) -> Layout {
    Layout { size, align: 4096 }
}

/// What one request of `size` bytes does: the heap serves an allocation
/// of that size on a page boundary, and the list of blocks grows by the
/// address and layout of the block if one was handed out, and not at all
/// if none was.
pub open spec fn request_post(
    heap: &HeapAllocator,
    dir: &PageDirectory,
    bitmap: &PhysicalMemory,
    post: &HeapAllocator,
    post_dir: &PageDirectory,
    post_bitmap: &PhysicalMemory,
    size: usize,
    noted: Seq<(usize, Layout)>,
    post_noted: Seq<(usize, Layout)>,
) -> bool {
    let handed = if post_noted.len() == noted.len() {
        None::<usize>
    } else {
        Some(post_noted.last().0)
    };
    &&& heap.allocate_post(dir, bitmap, post, post_dir, post_bitmap, page_layout(size), handed)
    &&& post_noted == match handed {
        Some(address) => noted.push((address, page_layout(size))),
        None => noted,
    }
}

/// Every size that `user_alloc_test` can ask for, in the order of asking.
pub open spec fn all_sizes() -> Seq<usize> {
    seq![10usize, 20usize, 65536usize, 262144usize, 524288usize, 67108864usize, 134217728usize, 188743680usize]
}

/// The sizes that `user_alloc_test` asks for: the five up to 512 KiB,
/// and with paging the three beyond.
pub open spec fn sizes_asked(paging_status: bool) -> Seq<usize> {
    if paging_status {
        all_sizes()
    } else {
        all_sizes().take(5)
    }
}

/// Whether requests of `sizes`, made one after the other, lead from the
/// first state to the second, with `noted` the blocks that were handed
/// out, in the order of the requests.
pub open spec fn requests_made(
    heap: &HeapAllocator,
    dir: &PageDirectory,
    bitmap: &PhysicalMemory,
    sizes: Seq<usize>,
    post: &HeapAllocator,
    post_dir: &PageDirectory,
    post_bitmap: &PhysicalMemory,
    noted: Seq<(usize, Layout)>,
) -> bool
    decreases sizes.len(),
{
    if sizes.len() == 0 {
        *post == *heap && *post_dir == *dir && *post_bitmap == *bitmap && noted == Seq::<
            (usize, Layout),
        >::empty()
    } else {
        exists|
            mid: HeapAllocator,
            mid_dir: PageDirectory,
            mid_bitmap: PhysicalMemory,
            mid_noted: Seq<(usize, Layout)>,
        |
            {
                &&& requests_made(
                    heap,
                    dir,
                    bitmap,
                    sizes.drop_last(),
                    &mid,
                    &mid_dir,
                    &mid_bitmap,
                    mid_noted,
                )
                &&& #[trigger] request_post(
                    &mid,
                    &mid_dir,
                    &mid_bitmap,
                    post,
                    post_dir,
                    post_bitmap,
                    sizes.last(),
                    mid_noted,
                    noted,
                )
            }
    }
}

/// Whether giving `block` back leads from the first state to the second,
/// whether or not the heap took it.
pub open spec fn block_returned(
    heap: &HeapAllocator,
    dir: &PageDirectory,
    bitmap: &PhysicalMemory,
    post: &HeapAllocator,
    post_dir: &PageDirectory,
    post_bitmap: &PhysicalMemory,
    block: (usize, Layout),
) -> bool {
    exists|r: Result<(), HeapError>| #[trigger]
        heap.deallocate_post(dir, bitmap, post, post_dir, post_bitmap, block.0, block.1, r)
}

/// Whether giving `blocks` back, one after the other, leads from the
/// first state to the second.
pub open spec fn blocks_returned(
    heap: &HeapAllocator,
    dir: &PageDirectory,
    bitmap: &PhysicalMemory,
    blocks: Seq<(usize, Layout)>,
    post: &HeapAllocator,
    post_dir: &PageDirectory,
    post_bitmap: &PhysicalMemory,
) -> bool
    decreases blocks.len(),
{
    if blocks.len() == 0 {
        *post == *heap && *post_dir == *dir && *post_bitmap == *bitmap
    } else {
        exists|mid: HeapAllocator, mid_dir: PageDirectory, mid_bitmap: PhysicalMemory|
            {
                &&& blocks_returned(
                    heap,
                    dir,
                    bitmap,
                    blocks.drop_last(),
                    &mid,
                    &mid_dir,
                    &mid_bitmap,
                )
                &&& #[trigger] block_returned(
                    &mid,
                    &mid_dir,
                    &mid_bitmap,
                    post,
                    post_dir,
                    post_bitmap,
                    blocks.last(),
                )
            }
    }
}

/// The contract of `user_alloc_test`: the requests of `sizes_asked` are
/// made in order, then every block that was handed out is given back, in
/// the order of the requests; `served` counts the blocks handed out.
pub open spec fn user_alloc_test_post(
    heap: &HeapAllocator,
    dir: &PageDirectory,
    bitmap: &PhysicalMemory,
    post: &HeapAllocator,
    post_dir: &PageDirectory,
    post_bitmap: &PhysicalMemory,
    paging_status: bool,
    served: usize,
) -> bool {
    exists|
        mid: HeapAllocator,
        mid_dir: PageDirectory,
        mid_bitmap: PhysicalMemory,
        noted: Seq<(usize, Layout)>,
    |
        {
            &&& #[trigger] requests_made(
                heap,
                dir,
                bitmap,
                sizes_asked(paging_status),
                &mid,
                &mid_dir,
                &mid_bitmap,
                noted,
            )
            &&& blocks_returned(&mid, &mid_dir, &mid_bitmap, noted, post, post_dir, post_bitmap)
            &&& served == noted.len()
        }
}

/// The contract of `alloc_test`: what `user_alloc_test` does, then what
/// `kalloc_test` does; the answer is yes if every request of the first
/// was served and the second says yes.
pub open spec fn alloc_test_post(
    heap: &HeapAllocator,
    dir: &PageDirectory,
    bitmap: &PhysicalMemory,
    post: &HeapAllocator,
    post_dir: &PageDirectory,
    post_bitmap: &PhysicalMemory,
    paging_status: bool,
    served: bool,
) -> bool {
    exists|
        mid: HeapAllocator,
        mid_dir: PageDirectory,
        mid_bitmap: PhysicalMemory,
        count: usize,
        both: bool,
    |
        {
            &&& #[trigger] user_alloc_test_post(
                heap,
                dir,
                bitmap,
                &mid,
                &mid_dir,
                &mid_bitmap,
                paging_status,
                count,
            )
            &&& #[trigger] kalloc_test_post(&mid, &mid_dir, &mid_bitmap, post, post_dir, post_bitmap, both)
            &&& served == (both && count == sizes_asked(paging_status).len())
        }
}

} // verus!
