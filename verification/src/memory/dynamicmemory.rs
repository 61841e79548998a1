//! The buddy heap of one privilege domain: free lists of orders 0 to 10
//! over physical blocks, and a cursor into the domain's virtual window.
//!
//! A heap works on the page directory and the frame bitmap that its
//! caller hands in, in that order.

use vstd::prelude::*;
use crate::memory::physicalmemory::{PhysicalMemory, PhysicalMemoryError, N_FRAMES};
use crate::memory::virtualmemory::{
    PageDirectory,
    PagingError,
    RECURSIVE_WINDOW,
    lemma_entry_word,
    lemma_split_address,
    lemma_word_frame,
    dir_index,
    table_index,
    word_frame,
    word_present,
};

verus! {

/// The largest order of a block: 2^10 pages, 4 MiB.
pub const MAX_ORDER: usize = 10;

/// Size of a page in bytes.
pub const PAGE_SIZE: usize = 0x1000;

/// Capacity of each free list.
pub const LIST_COUNT: usize = 1000;

/// How many blocks initialisation puts on one list at most.
pub const LIST_COUNT_INIT_MAX: usize = 300;

/// The privilege domain of a heap.
#[derive(Debug, Clone, Copy, PartialEq, Eq, Structural)]
pub enum Privilege {
    Kernel,
    User,
    /// The heap has not been given a domain yet.
    Unassigned,
}

/// Why a block was not taken back.
#[derive(Debug, Clone, Copy, PartialEq, Eq, Structural)]
pub enum HeapError {
    /// The address does not name a live block of the given size: a page
    /// of it is not mapped, a frame of it is not in use, or its frames do
    /// not form one aligned run.
    InvalidBlock,
    /// The free list of the block's order is full.
    ListFull,
    /// The size is beyond what this operation takes back.
    TooLarge,
}

/// Size and alignment of a request, in bytes.
#[derive(Debug, Clone, Copy, PartialEq, Eq, Structural)]
pub struct Layout {
    pub size: usize,
    pub align: usize,
}

/// Number of pages in a block of the given order: 2^order.
pub open spec fn block_pages(order: int) -> int
    decreases order,
{
    if order <= 0 {
        1
    } else {
        2 * block_pages(order - 1)
    }
}

/// Size in bytes of a block of the given order.
pub open spec fn block_size(order: int) -> int {
    0x1000 * block_pages(order)
}

/// The smallest order from `from` up whose block holds `size` bytes; 11
/// if none of the eleven orders does.
pub open spec fn fit_order_from(size: int, from: int) -> int
    decreases 11 - from,
{
    if from > 10 || size <= block_size(from) {
        from
    } else {
        fit_order_from(size, from + 1)
    }
}

/// The smallest order whose block holds `size` bytes; 11 beyond 4 MiB.
pub open spec fn fit_order(size: int) -> int {
    fit_order_from(size, 0)
}

proof fn lemma_fit_order_from(size: int, k: int, from: int)
    requires
        0 <= from <= k <= 10,
        size <= block_size(k),
        forall|m: int| from <= m < k ==> block_size(m) < size,
    ensures
        fit_order_from(size, from) == k,
    decreases k - from,
{
    if from < k {
        lemma_fit_order_from(size, k, from + 1);
    }
}

pub proof fn lemma_fit_order(size: int, k: int)
    requires
        0 <= k <= 10,
        size <= block_size(k),
        k > 0 ==> block_size(k - 1) < size,
    ensures
        fit_order(size) == k,
{
    assert forall|m: int| 0 <= m < k implies block_size(m) < size by {
        lemma_block_size_order(m, k - 1);
    }
    lemma_fit_order_from(size, k, 0);
}

/// What `fit_order` says of an order it names: the block of that order
/// holds the size, and no smaller block does.
pub proof fn lemma_fit_order_holds(size: int)
    ensures
        0 <= fit_order(size) <= 11,
        fit_order(size) <= 10 ==> size <= block_size(fit_order(size)),
        fit_order(size) > 0 ==> block_size(fit_order(size) - 1) < size,
{
    lemma_fit_order_from_holds(size, 0);
}

proof fn lemma_fit_order_from_holds(size: int, from: int)
    requires
        0 <= from <= 11,
    ensures
        from <= fit_order_from(size, from) <= 11,
        fit_order_from(size, from) <= 10 ==> size <= block_size(fit_order_from(size, from)),
        fit_order_from(size, from) > from ==> block_size(fit_order_from(size, from) - 1) < size,
    decreases 11 - from,
{
    if from <= 10 && size > block_size(from) {
        lemma_fit_order_from_holds(size, from + 1);
    }
}

pub proof fn lemma_fit_order_large(size: int)
    requires
        block_size(10) < size,
    ensures
        fit_order(size) == 11,
{
    reveal_with_fuel(fit_order_from, 12);
    lemma_block_size_order(0, 10);
    lemma_block_size_order(1, 10);
    lemma_block_size_order(2, 10);
    lemma_block_size_order(3, 10);
    lemma_block_size_order(4, 10);
    lemma_block_size_order(5, 10);
    lemma_block_size_order(6, 10);
    lemma_block_size_order(7, 10);
    lemma_block_size_order(8, 10);
    lemma_block_size_order(9, 10);
}

/// How far the sweep of initialisation moves on behind a block of `order`:
/// by the block's pages.
pub open spec fn sweep_step(order: int) -> int {
    if block_pages(order) >= 1 {
        block_pages(order)
    } else {
        1
    }
}

/// Whether `frame` is one of the frames of the block of `order` at `base`.
pub open spec fn in_block(frame: int, base: usize, order: int) -> bool {
    base as int <= frame * 0x1000 < base + block_size(order)
}

/// Whether `frame` lies in one of the pieces that a block of order
/// `higher` at `base` falls into when it is split down to order
/// `target`: the lowest piece of order `target`, or the upper half that
/// is cut off at one of the orders from `target` up to, not including,
/// `higher`.
pub open spec fn in_pieces(frame: int, base: usize, target: int, higher: int) -> bool
    decreases higher - target,
{
    if higher <= target {
        in_block(frame, base, target)
    } else {
        (base + block_size(higher - 1) <= frame * 0x1000 < base + 2 * block_size(higher - 1))
            || in_pieces(frame, base, target, higher - 1)
    }
}

/// The pieces of a split cover the block that was split, and no more.
pub proof fn lemma_pieces(frame: int, base: usize, target: int, higher: int)
    requires
        0 <= target <= higher <= 10,
    ensures
        in_block(frame, base, higher) <==> in_pieces(frame, base, target, higher),
    decreases higher - target,
{
    if higher > target {
        lemma_pieces(frame, base, target, higher - 1);
        assert(block_size(higher) == 2 * block_size(higher - 1));
    }
}

/// The page flags of a domain: 0x3 for the kernel, 0x7 otherwise.
pub open spec fn domain_flags(privilege: Privilege) -> usize {
    if privilege == Privilege::Kernel {
        0x3
    } else {
        0x7
    }
}

pub proof fn lemma_block_pages(order: int)
    requires
        0 <= order <= 10,
    ensures
        block_pages(order) == if order == 0 {
            1int
        } else if order == 1 {
            2
        } else if order == 2 {
            4
        } else if order == 3 {
            8
        } else if order == 4 {
            16
        } else if order == 5 {
            32
        } else if order == 6 {
            64
        } else if order == 7 {
            128
        } else if order == 8 {
            256
        } else if order == 9 {
            512
        } else {
            1024
        },
        1 <= block_pages(order) <= 1024,
        block_pages(order + 1) == 2 * block_pages(order),
{
    reveal_with_fuel(block_pages, 12);
}

/// Blocks grow with their order.
pub proof fn lemma_block_size_order(low: int, high: int)
    requires
        0 <= low <= high <= 10,
    ensures
        block_size(low) <= block_size(high),
        low < high ==> 2 * block_size(low) <= block_size(high),
        block_size(low) >= 0x1000,
        block_size(high) <= 0x40_0000,
        block_size(high) % block_size(low) == 0,
    decreases high - low,
{
    lemma_block_pages(low);
    lemma_block_pages(high);
    if low < high {
        lemma_block_size_order(low, high - 1);
        lemma_block_pages(high - 1);
        let small = block_size(low);
        let half = block_size(high - 1);
        assert((2 * half) % small == 0) by (nonlinear_arith)
            requires
                small > 0,
                half % small == 0,
        {
            let m = half / small;
            assert(half == small * m);
            assert(2 * half == small * (2 * m));
        }
    } else {
        assert(block_size(low) % block_size(low) == 0) by (nonlinear_arith)
            requires
                block_size(low) > 0,
        ;
    }
}

/// What is aligned to a block size is aligned to every smaller one.
pub proof fn lemma_aligned_lower(x: int, low: int, high: int)
    requires
        0 <= low <= high <= 10,
        x % block_size(high) == 0,
    ensures
        x % block_size(low) == 0,
{
    lemma_block_size_order(low, high);
    let big = block_size(high);
    let small = block_size(low);
    let q = big / small;
    assert(big == small * q && q > 0) by (nonlinear_arith)
        requires
            big % small == 0,
            q == big / small,
            small > 0,
            big >= small,
    ;
    lemma_multiple(x, small, q);
}

proof fn lemma_add_aligned(x: int, size: int)
    by (nonlinear_arith)
    requires
        size > 0,
        x % size == 0,
    ensures
        (x + size) % size == 0,
{
}

proof fn lemma_multiple(x: int, small: int, q: int)
    by (nonlinear_arith)
    requires
        small > 0,
        q > 0,
        x % (small * q) == 0,
    ensures
        x % small == 0,
{
    let m = x / (small * q);
    assert(x == (small * q) * m);
    assert(x == small * (q * m));
}

proof fn lemma_buddy(base: usize, order: usize)
    requires
        order < 10,
        base as int % block_size(order + 1) == 0,
        base <= 0xFFFF_FFFF,
    ensures
        base ^ (1usize << (order + 12)) == base + block_size(order as int),
{
    lemma_shift_is_pages(order);
    lemma_shift_is_pages((order + 1) as usize);
    lemma_block_pages(order as int);
    let big: usize = 0x1000usize << ((order + 1) as usize);
    assert(base % big == 0);
    assert(base ^ (1usize << (order + 12)) == base + (0x1000usize << order)) by (bit_vector)
        requires
            order < 10,
            base <= 0xFFFF_FFFF,
            big == 0x1000usize << ((order + 1) as usize),
            base % big == 0,
    ;
}

proof fn lemma_shift_is_pages(order: usize)
    requires
        order <= 10,
    ensures
        (1usize << order) == block_pages(order as int),
        (0x1000usize << order) == block_size(order as int),
{
    lemma_block_pages(order as int);
    assert((1usize << order) == if order == 0 {
        1usize
    } else if order == 1 {
        2
    } else if order == 2 {
        4
    } else if order == 3 {
        8
    } else if order == 4 {
        16
    } else if order == 5 {
        32
    } else if order == 6 {
        64
    } else if order == 7 {
        128
    } else if order == 8 {
        256
    } else if order == 9 {
        512
    } else {
        1024
    } && (0x1000usize << order) == 0x1000 * (1usize << order)) by (bit_vector)
        requires
            order <= 10,
    ;
}

impl Layout {
    /// A layout of `size` bytes aligned to `align`, which must be a power
    /// of two; and `size`, rounded up to a multiple of `align`, must stay
    /// within the largest signed size.
    pub fn from_size_align(size: usize, align: usize) -> (layout: Option<Layout>)
        ensures
            layout == if align != 0 && align & ((align - 1) as usize) == 0 && size + (align - 1)
                <= usize::MAX / 2 {
                Some(Layout { size, align })
            } else {
                None
            },
    {
        let most: usize = usize::MAX / 2;
        if align != 0 && align & (align - 1) == 0 && align - 1 <= most && size <= most - (align - 1) {
            Some(Layout { size, align })
        } else {
            None
        }
    }

    pub fn size(&self) -> (size: usize)
        ensures
            size == self.size,
    {
        self.size
    }

    pub fn align(&self) -> (align: usize)
        ensures
            align == self.align,
    {
        self.align
    }
}

/// The heap of one domain.
pub struct HeapAllocator {
    free_lists: [[usize; LIST_COUNT]; 11],
    free_counts: [usize; 11],
    privilege: Privilege,
    next_virtual_addr: usize,
    end_virtual_addr: usize,
    paging_status: bool,
}

impl HeapAllocator {
    /// The bases of the free blocks of the given order, oldest first.
    pub closed spec fn list(&self, order: int) -> Seq<usize> {
        Seq::new(self.free_counts[order] as nat, |i: int| self.free_lists[order][i])
    }

    /// The next virtual address that an allocation is placed at.
    pub closed spec fn cursor(&self) -> usize {
        self.next_virtual_addr
    }

    /// The end of the domain's virtual window.
    pub closed spec fn window_end(&self) -> usize {
        self.end_virtual_addr
    }

    pub closed spec fn privilege(&self) -> Privilege {
        self.privilege
    }

    pub closed spec fn paging(&self) -> bool {
        self.paging_status
    }

    /// The invariant of the free lists: every block is aligned to its own
    /// size and lies below 4 GiB, and no two blocks share a frame.
    pub open spec fn wf(&self) -> bool {
        &&& forall|k: int| 0 <= k <= MAX_ORDER ==> (#[trigger] self.list(k)).len() <= LIST_COUNT
        &&& self.cursor() % 0x1000 == 0
        &&& forall|k: int, i: int|
            0 <= k <= MAX_ORDER && 0 <= i < self.list(k).len() ==> {
                &&& (#[trigger] self.list(k)[i]) as int % block_size(k) == 0
                &&& self.list(k)[i] + block_size(k) <= 0x1_0000_0000
            }
        &&& forall|k1: int, i1: int, k2: int, i2: int|
            0 <= k1 <= MAX_ORDER && 0 <= i1 < self.list(k1).len() && 0 <= k2 <= MAX_ORDER && 0 <= i2
                < self.list(k2).len() && (k1 != k2 || i1 != i2) ==> {
                ||| (#[trigger] self.list(k1)[i1]) + block_size(k1) <= (#[trigger] self.list(k2)[i2])
                ||| self.list(k2)[i2] + block_size(k2) <= self.list(k1)[i1]
            }
    }

    /// Whether every free block lies inside the addresses from `start` up
    /// to `end`.
    pub open spec fn within(&self, start: usize, end: usize) -> bool {
        forall|k: int, i: int|
            0 <= k <= MAX_ORDER && 0 <= i < self.list(k).len() ==> start <= (#[trigger] self.list(
                k,
            )[i]) && self.list(k)[i] + block_size(k) <= end
    }

    /// Whether `frame` belongs to a block on one of the free lists.
    pub open spec fn owns_frame(&self, frame: int) -> bool {
        exists|k: int, i: int|
            0 <= k <= MAX_ORDER && 0 <= i < self.list(k).len() && in_block(
                frame,
                #[trigger] self.list(k)[i],
                k,
            )
    }

    /// What taking the last block of order `higher` and splitting it down
    /// to order `target` leaves on the free lists: the block is gone, and
    /// every order from `target` up to `higher` that still has room
    /// received the upper half of the piece split at that step.
    pub open spec fn split_from(&self, post: &HeapAllocator, higher: int, target: int) -> bool {
        let base = self.list(higher).last();
        forall|k: int|
            0 <= k <= MAX_ORDER ==> #[trigger] post.list(k) == if k == higher {
                self.list(k).drop_last()
            } else if target <= k < higher && self.list(k).len() < LIST_COUNT {
                self.list(k).push((base + block_size(k)) as usize)
            } else {
                self.list(k)
            }
    }

    /// Every frame of every free block is free in `bitmap`.
    pub open spec fn backed(&self, bitmap: &PhysicalMemory) -> bool {
        forall|frame: int| self.owns_frame(frame) ==> !bitmap@.contains(frame)
    }

    /// With paging, the rest of the window is ready to be mapped: it ends
    /// below the recursive window, every page table it needs is in place,
    /// and none of its pages is mapped.
    pub open spec fn window_ready(&self, dir: &PageDirectory) -> bool {
        self.paging() ==> {
            &&& self.window_end() <= RECURSIVE_WINDOW
            &&& forall|page: int|
                self.cursor() as int / 0x1000 <= page < self.window_end() as int / 0x1000
                    ==> #[trigger] dir.mappable(page)
        }
    }

    /// What the heap needs of the directory and the bitmap it works on.
    pub open spec fn inv(&self, dir: &PageDirectory, bitmap: &PhysicalMemory) -> bool {
        self.wf() && dir.wf() && self.backed(bitmap) && self.window_ready(dir)
    }

    /// The address under which a block at `pa` is handed out: the cursor
    /// with paging, the block's own address without.
    pub open spec fn handed_address(&self, pa: usize) -> usize {
        if self.paging() {
            self.cursor()
        } else {
            pa
        }
    }

    /// What handing out the block of `order` at `pa` does outside the free
    /// lists: its frames are marked, with paging its pages are mapped at
    /// the cursor with the domain's flags, and the cursor moves past them.
    pub open spec fn handed_out(
        &self,
        dir: &PageDirectory,
        bitmap: &PhysicalMemory,
        post: &HeapAllocator,
        post_dir: &PageDirectory,
        post_bitmap: &PhysicalMemory,
        pa: usize,
        order: int,
    ) -> bool {
        &&& post.cursor() == self.cursor() + block_size(order)
        &&& post.privilege() == self.privilege()
        &&& post.paging() == self.paging()
        &&& post.window_end() == self.window_end()
        &&& bitmap.run_marked(post_bitmap, pa as int / 0x1000, block_pages(order))
        &&& if self.paging() {
            dir.run_mapped(
                post_dir,
                self.cursor() as int,
                pa as int,
                block_pages(order),
                domain_flags(self.privilege()),
            )
        } else {
            *post_dir == *dir
        }
    }

    /// The lowest order from `from` up whose list holds a block; 11 if
    /// there is none.
    pub open spec fn first_stocked(&self, from: int) -> int
        decreases 11 - from,
    {
        if from > MAX_ORDER {
            11
        } else if self.list(from).len() > 0 {
            from
        } else {
            self.first_stocked(from + 1)
        }
    }

    /// The highest order from `from` down whose list holds at least as
    /// many blocks as make up one block of order `target`; -1 if there is
    /// none.
    pub open spec fn merge_source(&self, target: int, from: int) -> int
        decreases from + 1,
    {
        if from < 0 {
            -1
        } else if self.list(from).len() >= block_pages(target - from) {
            from
        } else {
            self.merge_source(target, from - 1)
        }
    }

    /// The contract of an allocation of one block of order `k`.
    ///
    /// Without room in the window nothing happens. Else the last block of
    /// list `k` is handed out; or, if that list is empty, the last block of
    /// the lowest stocked list above it, split down to order `k`. With
    /// `fallback` and no such list, one block of the highest order below
    /// `k` that has enough blocks to make up the request is handed out at
    /// its own order, and the request still fails: the blocks of that list
    /// need not lie side by side.
    pub open spec fn allocate_order_post(
        &self,
        dir: &PageDirectory,
        bitmap: &PhysicalMemory,
        post: &HeapAllocator,
        post_dir: &PageDirectory,
        post_bitmap: &PhysicalMemory,
        k: int,
        fallback: bool,
        r: Option<usize>,
    ) -> bool {
        let j = self.first_stocked(k);
        let o = self.merge_source(k, k - 1);
        if self.cursor() + block_size(k) > self.window_end() {
            r is None && *post == *self && *post_dir == *dir && *post_bitmap == *bitmap
        } else if j <= MAX_ORDER {
            &&& r == Some(self.handed_address(self.list(j).last()))
            &&& self.split_from(post, j, k)
            &&& self.handed_out(dir, bitmap, post, post_dir, post_bitmap, self.list(j).last(), k)
        } else if fallback && o >= 0 {
            &&& r is None
            &&& self.split_from(post, o, o)
            &&& self.handed_out(dir, bitmap, post, post_dir, post_bitmap, self.list(o).last(), o)
        } else {
            r is None && *post == *self && *post_dir == *dir && *post_bitmap == *bitmap
        }
    }

    /// The physical base of the block handed out under `address`.
    pub open spec fn block_base(&self, dir: &PageDirectory, address: usize) -> usize {
        if self.paging() {
            word_frame(dir.page_word(address as int / 0x1000))
        } else {
            address
        }
    }

    /// Whether `page`, a page of the block handed out under `address`, is
    /// still in place: mapped to the frame that lies as far behind the
    /// block's base as the page lies behind `address`, with that frame in
    /// use. Without paging the page is its own frame.
    pub open spec fn page_live(
        &self,
        dir: &PageDirectory,
        bitmap: &PhysicalMemory,
        address: usize,
        page: int,
    ) -> bool {
        let frame = self.block_base(dir, address) as int / 0x1000 + (page - address as int / 0x1000);
        &&& bitmap@.contains(frame)
        &&& self.paging() ==> {
            &&& word_present(dir.pde(page / 1024))
            &&& word_present(dir.page_word(page))
            &&& word_frame(dir.page_word(page)) as int == frame * 0x1000
        }
    }

    /// Whether `address` names a block of `order` that can be taken back:
    /// aligned, inside the address space, every page in place, and the
    /// frames behind it one run aligned to the block's size.
    pub open spec fn live_block(
        &self,
        dir: &PageDirectory,
        bitmap: &PhysicalMemory,
        address: usize,
        order: int,
    ) -> bool {
        &&& address % 0x1000 == 0
        &&& address + block_size(order) <= if self.paging() {
            RECURSIVE_WINDOW as int
        } else {
            0x1_0000_0000
        }
        &&& self.block_base(dir, address) as int % block_size(order) == 0
        &&& forall|page: int|
            address as int / 0x1000 <= page < address as int / 0x1000 + block_pages(order)
                ==> #[trigger] self.page_live(dir, bitmap, address, page)
    }

    /// The contract of taking back the block of `order` under `address`.
    pub open spec fn release_block_post(
        &self,
        dir: &PageDirectory,
        bitmap: &PhysicalMemory,
        post: &HeapAllocator,
        post_dir: &PageDirectory,
        post_bitmap: &PhysicalMemory,
        address: usize,
        order: int,
        r: Result<(), HeapError>,
    ) -> bool {
        let base = self.block_base(dir, address);
        if !self.live_block(dir, bitmap, address, order) {
            r == Err::<(), HeapError>(HeapError::InvalidBlock) && *post == *self && *post_dir == *dir
                && *post_bitmap == *bitmap
        } else if self.list(order).len() >= LIST_COUNT {
            r == Err::<(), HeapError>(HeapError::ListFull) && *post == *self && *post_dir == *dir
                && *post_bitmap == *bitmap
        } else {
            &&& r is Ok
            &&& post.list(order) == self.list(order).push(base)
            &&& forall|k: int| 0 <= k <= MAX_ORDER && k != order ==> post.list(k) == self.list(k)
            &&& post.cursor() == self.cursor()
            &&& post.privilege() == self.privilege()
            &&& post.paging() == self.paging()
            &&& post.window_end() == self.window_end()
            &&& bitmap.run_released(post_bitmap, base as int / 0x1000, block_pages(order))
            &&& if self.paging() {
                dir.run_unmapped(post_dir, address as int, block_pages(order))
            } else {
                *post_dir == *dir
            }
        }
    }

    /// The frames that the free lists of `self` hold and those of `post`
    /// do not.
    pub open spec fn lost_frames(&self, post: &HeapAllocator) -> Set<int> {
        Set::new(|frame: int| self.owns_frame(frame) && !post.owns_frame(frame))
    }

    /// The frames that the free lists of `post` hold and those of `self`
    /// do not.
    pub open spec fn gained_frames(&self, post: &HeapAllocator) -> Set<int> {
        Set::new(|frame: int| post.owns_frame(frame) && !self.owns_frame(frame))
    }

    /// How many pages a request of `size` bytes takes.
    pub open spec fn pages_for(size: int) -> int {
        if size % 0x1000 == 0 {
            size / 0x1000
        } else {
            size / 0x1000 + 1
        }
    }

    /// What is left of a request of `pages` pages once the lists of order
    /// 10 down to `order` have given what they can: each list gives as
    /// many blocks as it holds and as fit into what was left to it.
    pub open spec fn large_left(&self, pages: int, order: int) -> int
        decreases 11 - order,
    {
        if order > MAX_ORDER {
            pages
        } else {
            self.large_left(pages, order + 1) - self.large_take(pages, order) * block_pages(order)
        }
    }

    /// How many blocks list `order` gives to a request of `pages` pages.
    pub open spec fn large_take(&self, pages: int, order: int) -> int
        decreases 11 - order, 0int,
    {
        if order > MAX_ORDER {
            0
        } else {
            let fit = self.large_left(pages, order + 1) / block_pages(order);
            if fit <= self.list(order).len() {
                fit
            } else {
                self.list(order).len() as int
            }
        }
    }

    /// What mapping a run of `pages` pages onto the frames in `frames`
    /// leaves: every page of the run holds one of these frames joined
    /// with `flags`, no two pages the same frame; the directory page and
    /// every other table entry are untouched.
    pub open spec fn run_spread(
        dir: &PageDirectory,
        post_dir: &PageDirectory,
        first: int,
        pages: int,
        flags: usize,
        frames: Set<int>,
    ) -> bool {
        &&& post_dir.wf()
        &&& post_dir.frame() == dir.frame()
        &&& post_dir.recursive() == dir.recursive()
        &&& forall|a: int| 0 <= a < 1024 ==> post_dir.pde(a) == dir.pde(a)
        &&& forall|page: int|
            0 <= page < N_FRAMES && !(first <= page < first + pages) ==> #[trigger] post_dir.page_word(
                page,
            ) == dir.page_word(page)
        &&& forall|page: int|
            first <= page < first + pages ==> {
                let word = #[trigger] post_dir.page_word(page);
                &&& frames.contains(word_frame(word) as int / 0x1000)
                &&& word == word_frame(word) | flags
            }
        &&& forall|p: int, q: int|
            first <= p < first + pages && first <= q < first + pages && p != q ==> word_frame(
                #[trigger] post_dir.page_word(p),
            ) != word_frame(#[trigger] post_dir.page_word(q))
    }

    /// The order of the next block of a large request with `remaining`
    /// pages still missing: the largest order from `from` down whose
    /// block has no more pages than are missing and whose list holds a
    /// block; -1 if there is none.
    pub open spec fn take_order(&self, remaining: int, from: int) -> int
        decreases from + 1,
    {
        if from < 0 {
            -1
        } else if block_pages(from) <= remaining && self.list(from).len() > 0 {
            from
        } else {
            self.take_order(remaining, from - 1)
        }
    }

    /// One step of a large allocation of `pages` pages, `before` of which
    /// are mapped already: the last block of the order that `take_order`
    /// names leaves its list and is handed out at the cursor, which
    /// brings the pages mapped to `done`.
    pub open spec fn block_taken(
        &self,
        dir: &PageDirectory,
        bitmap: &PhysicalMemory,
        post: &HeapAllocator,
        post_dir: &PageDirectory,
        post_bitmap: &PhysicalMemory,
        pages: int,
        before: int,
        done: int,
    ) -> bool {
        let order = self.take_order(pages - before, 10);
        &&& 0 <= order
        &&& done == before + block_pages(order)
        &&& self.split_from(post, order, order)
        &&& self.handed_out(dir, bitmap, post, post_dir, post_bitmap, self.list(order).last(), order)
    }

    /// Whether the first `done` pages of a large request of `pages` pages
    /// were served block by block, each as `block_taken` states.
    pub open spec fn taken_in_blocks(
        &self,
        dir: &PageDirectory,
        bitmap: &PhysicalMemory,
        post: &HeapAllocator,
        post_dir: &PageDirectory,
        post_bitmap: &PhysicalMemory,
        pages: int,
        done: int,
    ) -> bool
        decreases done,
    {
        if done <= 0 {
            done == 0 && *post == *self && *post_dir == *dir && *post_bitmap == *bitmap
        } else {
            exists|
                mid: HeapAllocator,
                mid_dir: PageDirectory,
                mid_bitmap: PhysicalMemory,
                before: int,
            |
                {
                    &&& 0 <= before < done
                    &&& self.taken_in_blocks(dir, bitmap, &mid, &mid_dir, &mid_bitmap, pages, before)
                    &&& #[trigger] mid.block_taken(
                        &mid_dir,
                        &mid_bitmap,
                        post,
                        post_dir,
                        post_bitmap,
                        pages,
                        before,
                        done,
                    )
                }
        }
    }

    /// The contract of an allocation of more than 4 MiB.
    ///
    /// It needs paging, room in the window for every page, and enough
    /// blocks when the lists are asked from order 10 down. Then each list
    /// loses its last blocks, as many as it gives, and the pages from the
    /// cursor on are spread over the frames of these blocks: block by
    /// block, each time the largest block that fits into what is missing.
    pub open spec fn allocate_large_post(
        &self,
        dir: &PageDirectory,
        bitmap: &PhysicalMemory,
        post: &HeapAllocator,
        post_dir: &PageDirectory,
        post_bitmap: &PhysicalMemory,
        size: usize,
        r: Option<usize>,
    ) -> bool {
        let pages = Self::pages_for(size as int);
        if !self.paging() || self.cursor() + pages * 0x1000 > self.window_end() || self.large_left(
            pages,
            0,
        ) != 0 {
            r is None && *post == *self && *post_dir == *dir && *post_bitmap == *bitmap
        } else {
            &&& r == Some(self.cursor())
            &&& forall|k: int|
                0 <= k <= MAX_ORDER ==> #[trigger] post.list(k) == self.list(k).take(
                    self.list(k).len() - self.large_take(pages, k),
                )
            &&& post.cursor() == self.cursor() + pages * 0x1000
            &&& post.privilege() == self.privilege()
            &&& post.paging() == self.paging()
            &&& post.window_end() == self.window_end()
            &&& post_bitmap@ == bitmap@.union(self.lost_frames(post))
            &&& Self::run_spread(
                dir,
                post_dir,
                self.cursor() as int / 0x1000,
                pages,
                domain_flags(self.privilege()),
                self.lost_frames(post),
            )
            &&& self.taken_in_blocks(dir, bitmap, post, post_dir, post_bitmap, pages, pages)
        }
    }

    /// The contract of `allocate`: the request is as large as the larger
    /// of the layout's size and alignment; up to 4 MiB it is served by one
    /// block of the smallest order that holds it, beyond by a run of
    /// blocks.
    pub open spec fn allocate_post(
        &self,
        dir: &PageDirectory,
        bitmap: &PhysicalMemory,
        post: &HeapAllocator,
        post_dir: &PageDirectory,
        post_bitmap: &PhysicalMemory,
        layout: Layout,
        r: Option<usize>,
    ) -> bool {
        let size = if layout.size >= layout.align {
            layout.size
        } else {
            layout.align
        };
        if fit_order(size as int) <= MAX_ORDER {
            self.allocate_order_post(
                dir,
                bitmap,
                post,
                post_dir,
                post_bitmap,
                fit_order(size as int),
                true,
                r,
            )
        } else {
            self.allocate_large_post(dir, bitmap, post, post_dir, post_bitmap, size, r)
        }
    }

    /// The contract of `kallocate`.
    pub open spec fn kallocate_post(
        &self,
        dir: &PageDirectory,
        bitmap: &PhysicalMemory,
        post: &HeapAllocator,
        post_dir: &PageDirectory,
        post_bitmap: &PhysicalMemory,
        size: usize,
        r: Option<usize>,
    ) -> bool {
        if fit_order(size as int) <= MAX_ORDER {
            self.allocate_order_post(
                dir,
                bitmap,
                post,
                post_dir,
                post_bitmap,
                fit_order(size as int),
                false,
                r,
            )
        } else {
            r is None && *post == *self && *post_dir == *dir && *post_bitmap == *bitmap
        }
    }

    /// The state in the middle of a large allocation, after `done` pages:
    /// the lists have only lost blocks from their ends, and the pages
    /// mapped so far are spread over the frames of the blocks lost.
    pub open spec fn large_progress(
        &self,
        dir: &PageDirectory,
        bitmap: &PhysicalMemory,
        now: &HeapAllocator,
        now_dir: &PageDirectory,
        now_bitmap: &PhysicalMemory,
        done: int,
    ) -> bool {
        &&& now.inv(now_dir, now_bitmap)
        &&& forall|k: int|
            0 <= k <= MAX_ORDER ==> (#[trigger] now.list(k)).len() <= self.list(k).len() && now.list(k)
                == self.list(k).take(now.list(k).len() as int)
        &&& now.cursor() == self.cursor() + done * 0x1000
        &&& now.privilege() == self.privilege()
        &&& now.paging() == self.paging()
        &&& now.window_end() == self.window_end()
        &&& now_bitmap@ == bitmap@.union(self.lost_frames(now))
        &&& Self::run_spread(
            dir,
            now_dir,
            self.cursor() as int / 0x1000,
            done,
            domain_flags(self.privilege()),
            self.lost_frames(now),
        )
    }

    /// The frames behind the `pages` pages from page `first` on.
    pub open spec fn run_frames(dir: &PageDirectory, first: int, pages: int) -> Set<int> {
        Set::new(
            |frame: int|
                exists|page: int|
                    first <= page < first + pages && page < N_FRAMES && #[trigger] dir.page_at(
                        page,
                        frame,
                    ),
        )
    }

    /// What a deallocation leaves once the first `done` pages under
    /// `address` went back: the lists only grew, and by exactly the
    /// frames behind these pages, which are free again; the pages are
    /// unmapped.
    pub open spec fn released_run(
        &self,
        dir: &PageDirectory,
        bitmap: &PhysicalMemory,
        post: &HeapAllocator,
        post_dir: &PageDirectory,
        post_bitmap: &PhysicalMemory,
        address: usize,
        done: int,
    ) -> bool {
        &&& forall|k: int|
            0 <= k <= MAX_ORDER ==> self.list(k).len() <= (#[trigger] post.list(k)).len() && self.list(
                k,
            ) == post.list(k).take(self.list(k).len() as int)
        &&& post.cursor() == self.cursor()
        &&& post.privilege() == self.privilege()
        &&& post.paging() == self.paging()
        &&& post.window_end() == self.window_end()
        &&& self.gained_frames(post) == Self::run_frames(dir, address as int / 0x1000, done)
        &&& forall|frame: int| #[trigger]
            self.gained_frames(post).contains(frame) ==> bitmap@.contains(frame)
        &&& post_bitmap@ == bitmap@.difference(self.gained_frames(post))
        &&& dir.run_unmapped(post_dir, address as int, done)
    }

    /// Whether the heap takes back a block of `order` under `address`:
    /// the block is in place and the list of its order has room.
    pub open spec fn takes_back(
        &self,
        dir: &PageDirectory,
        bitmap: &PhysicalMemory,
        address: usize,
        order: int,
    ) -> bool {
        self.live_block(dir, bitmap, address, order) && self.list(order).len() < LIST_COUNT
    }

    /// The largest order from `from` down whose block has no more pages
    /// than `remaining`; 0 if there is none.
    pub open spec fn span_order(remaining: int, from: int) -> int
        decreases from,
    {
        if from <= 0 {
            0
        } else if block_pages(from) <= remaining {
            from
        } else {
            Self::span_order(remaining, from - 1)
        }
    }

    /// The order at which the next block of a large request goes back:
    /// the largest order from `from` down at which the heap takes the
    /// block under `address` back; 0 if there is none.
    pub open spec fn release_order(
        &self,
        dir: &PageDirectory,
        bitmap: &PhysicalMemory,
        address: usize,
        from: int,
    ) -> int
        decreases from,
    {
        if from <= 0 {
            0
        } else if self.takes_back(dir, bitmap, address, from) {
            from
        } else {
            self.release_order(dir, bitmap, address, from - 1)
        }
    }

    /// One step of a large deallocation of `pages` pages, `before` of
    /// which went back already: the next block goes back at the largest
    /// order that the rest of the request spans and at which the heap
    /// takes it back, which brings the pages that went back to `done`.
    pub open spec fn block_released(
        &self,
        dir: &PageDirectory,
        bitmap: &PhysicalMemory,
        post: &HeapAllocator,
        post_dir: &PageDirectory,
        post_bitmap: &PhysicalMemory,
        address: usize,
        pages: int,
        before: int,
        done: int,
    ) -> bool {
        let va = (address + before * 0x1000) as usize;
        let order = self.release_order(dir, bitmap, va, Self::span_order(pages - before, 10));
        &&& done == before + block_pages(order)
        &&& self.release_block_post(
            dir,
            bitmap,
            post,
            post_dir,
            post_bitmap,
            va,
            order,
            Ok::<(), HeapError>(()),
        )
    }

    /// Whether the first `done` pages of a large request of `pages` pages
    /// under `address` went back block by block from the front, each as
    /// `block_released` states.
    pub open spec fn released_in_blocks(
        &self,
        dir: &PageDirectory,
        bitmap: &PhysicalMemory,
        post: &HeapAllocator,
        post_dir: &PageDirectory,
        post_bitmap: &PhysicalMemory,
        address: usize,
        pages: int,
        done: int,
    ) -> bool
        decreases done,
    {
        if done <= 0 {
            done == 0 && *post == *self && *post_dir == *dir && *post_bitmap == *bitmap
        } else {
            exists|
                mid: HeapAllocator,
                mid_dir: PageDirectory,
                mid_bitmap: PhysicalMemory,
                before: int,
            |
                {
                    &&& 0 <= before < done
                    &&& self.released_in_blocks(
                        dir,
                        bitmap,
                        &mid,
                        &mid_dir,
                        &mid_bitmap,
                        address,
                        pages,
                        before,
                    )
                    &&& #[trigger] mid.block_released(
                        &mid_dir,
                        &mid_bitmap,
                        post,
                        post_dir,
                        post_bitmap,
                        address,
                        pages,
                        before,
                        done,
                    )
                }
        }
    }

    /// The contract of `deallocate`.
    ///
    /// Up to 4 MiB the block of the layout's order goes back as one. Beyond,
    /// and only with paging, the pages go back block by block from the
    /// front, each block at the largest order that the rest of the
    /// request spans and at which the heap takes it back; the first page
    /// that cannot go back even alone ends the work with its error.
    pub open spec fn deallocate_post(
        &self,
        dir: &PageDirectory,
        bitmap: &PhysicalMemory,
        post: &HeapAllocator,
        post_dir: &PageDirectory,
        post_bitmap: &PhysicalMemory,
        address: usize,
        layout: Layout,
        r: Result<(), HeapError>,
    ) -> bool {
        let size = if layout.size >= layout.align {
            layout.size
        } else {
            layout.align
        };
        let pages = Self::pages_for(size as int);
        if fit_order(size as int) <= MAX_ORDER {
            self.release_block_post(
                dir,
                bitmap,
                post,
                post_dir,
                post_bitmap,
                address,
                fit_order(size as int),
                r,
            )
        } else if !self.paging() {
            r == Err::<(), HeapError>(HeapError::TooLarge) && *post == *self && *post_dir == *dir
                && *post_bitmap == *bitmap
        } else {
            match r {
                Ok(()) => {
                    &&& self.released_run(dir, bitmap, post, post_dir, post_bitmap, address, pages)
                    &&& self.released_in_blocks(
                        dir,
                        bitmap,
                        post,
                        post_dir,
                        post_bitmap,
                        address,
                        pages,
                        pages,
                    )
                },
                Err(e) => exists|done: int|
                    {
                        &&& 0 <= done < pages
                        &&& #[trigger] self.released_run(
                            dir,
                            bitmap,
                            post,
                            post_dir,
                            post_bitmap,
                            address,
                            done,
                        )
                        &&& self.released_in_blocks(
                            dir,
                            bitmap,
                            post,
                            post_dir,
                            post_bitmap,
                            address,
                            pages,
                            done,
                        )
                        &&& if post.live_block(
                            post_dir,
                            post_bitmap,
                            (address + done * 0x1000) as usize,
                            0,
                        ) {
                            e == HeapError::ListFull && post.list(0).len() >= LIST_COUNT
                        } else {
                            e == HeapError::InvalidBlock
                        }
                    },
            }
        }
    }

    /// The contract of `kdeallocate`.
    pub open spec fn kdeallocate_post(
        &self,
        dir: &PageDirectory,
        bitmap: &PhysicalMemory,
        post: &HeapAllocator,
        post_dir: &PageDirectory,
        post_bitmap: &PhysicalMemory,
        address: usize,
        size: usize,
        r: Result<(), HeapError>,
    ) -> bool {
        if fit_order(size as int) <= MAX_ORDER {
            self.release_block_post(
                dir,
                bitmap,
                post,
                post_dir,
                post_bitmap,
                address,
                fit_order(size as int),
                r,
            )
        } else {
            r == Err::<(), HeapError>(HeapError::TooLarge) && *post == *self && *post_dir == *dir
                && *post_bitmap == *bitmap
        }
    }

    /// The eleven free lists, by order.
    pub open spec fn lists(&self) -> Seq<Seq<usize>> {
        Seq::new(11, |k: int| self.list(k))
    }

    /// Whether the `2^order` frames from `frame` on are covered by the
    /// bitmap and free.
    pub open spec fn block_free(bitmap: &PhysicalMemory, frame: int, order: int) -> bool {
        &&& frame + block_pages(order) <= N_FRAMES
        &&& forall|f: int| frame <= f < frame + block_pages(order) ==> !bitmap@.contains(f)
    }

    /// Whether initialisation may start a block of `order` at `frame`: the
    /// frame is aligned to the block's size, the block ends inside the
    /// range, all its frames are free, and the list of its order has not
    /// reached its share yet.
    pub open spec fn sweep_fits(
        bitmap: &PhysicalMemory,
        lists: Seq<Seq<usize>>,
        frame: int,
        end_frame: int,
        order: int,
    ) -> bool {
        &&& frame % block_pages(order) == 0
        &&& frame + block_pages(order) <= end_frame
        &&& Self::block_free(bitmap, frame, order)
        &&& lists[order].len() < LIST_COUNT_INIT_MAX
    }

    /// The largest order from `from` down that initialisation may start a
    /// block of at `frame`; -1 if there is none.
    pub open spec fn sweep_order(
        bitmap: &PhysicalMemory,
        lists: Seq<Seq<usize>>,
        frame: int,
        end_frame: int,
        from: int,
    ) -> int
        decreases from + 1,
    {
        if from < 0 {
            -1
        } else if Self::sweep_fits(bitmap, lists, frame, end_frame, from) {
            from
        } else {
            Self::sweep_order(bitmap, lists, frame, end_frame, from - 1)
        }
    }

    /// The free lists that the sweep over the frames from `frame` up to
    /// `end_frame` makes of `lists`: at each frame the largest block that
    /// may start there goes onto the list of its order and the sweep goes
    /// on behind it; where none may start, the sweep moves on by one frame.
    pub open spec fn swept(
        bitmap: &PhysicalMemory,
        lists: Seq<Seq<usize>>,
        frame: int,
        end_frame: int,
    ) -> Seq<Seq<usize>>
        decreases end_frame - frame,
    {
        if frame >= end_frame {
            lists
        } else {
            let k = Self::sweep_order(bitmap, lists, frame, end_frame, 10);
            if 0 <= k <= 10 && Self::sweep_fits(bitmap, lists, frame, end_frame, k) {
                Self::swept(
                    bitmap,
                    lists.update(k, lists[k].push((frame * 0x1000) as usize)),
                    frame + sweep_step(k),
                    end_frame,
                )
            } else {
                Self::swept(bitmap, lists, frame + 1, end_frame)
            }
        }
    }

    /// Whether no page of the window is mapped.
    pub open spec fn window_unmapped(dir: &PageDirectory, start: usize, end: usize) -> bool {
        forall|page: int|
            start as int / 0x1000 <= page < end as int / 0x1000 && page < N_FRAMES ==> !word_present(
                #[trigger] dir.page_word(page),
            )
    }

    /// The contract of `init`.
    ///
    /// With paging the window gets its page tables first; a window that
    /// reaches into the recursive window, a bitmap that runs out of
    /// frames, or a page of the window that is already mapped ends the
    /// work with the heap untouched. Then the heap takes over the domain
    /// and its free lists are those of the sweep over the frames of the
    /// range.
    pub open spec fn init_post(
        &self,
        dir: &PageDirectory,
        bitmap: &PhysicalMemory,
        post: &HeapAllocator,
        post_dir: &PageDirectory,
        post_bitmap: &PhysicalMemory,
        start: usize,
        end: usize,
        privilege: Privilege,
        paging: bool,
        r: Result<(), PagingError>,
    ) -> bool {
        let taken = {
            &&& post.lists() == Self::swept(
                post_bitmap,
                Seq::new(11, |k: int| Seq::<usize>::empty()),
                start as int / 0x1000,
                end as int / 0x1000,
            )
            &&& post.cursor() == start
            &&& post.window_end() == end
            &&& post.privilege() == privilege
            &&& post.paging() == paging
        };
        if !paging {
            r is Ok && *post_dir == *dir && *post_bitmap == *bitmap && taken
        } else {
            match r {
                Ok(()) => dir.init_directory_post(bitmap, post_dir, post_bitmap, start, end, r)
                    && Self::window_unmapped(post_dir, start, end) && taken,
                Err(e) => *post == *self && if e == PagingError::AlreadyMapped {
                    dir.init_directory_post(
                        bitmap,
                        post_dir,
                        post_bitmap,
                        start,
                        end,
                        Ok::<(), PagingError>(()),
                    ) && !Self::window_unmapped(post_dir, start, end)
                } else {
                    dir.init_directory_post(bitmap, post_dir, post_bitmap, start, end, r)
                },
            }
        }
    }

    /// A heap without blocks or window.
    pub fn new() -> (heap: HeapAllocator)
        ensures
            heap.wf(),
            forall|k: int| 0 <= k <= MAX_ORDER ==> heap.list(k).len() == 0,
            heap.cursor() == 0,
            heap.window_end() == 0,
            heap.privilege() == Privilege::Unassigned,
            !heap.paging(),
    {
        HeapAllocator {
            free_lists: [[0usize; LIST_COUNT]; 11],
            free_counts: [0usize; 11],
            privilege: Privilege::Unassigned,
            next_virtual_addr: 0,
            end_virtual_addr: 0,
            paging_status: false,
        }
    }

    /// Whether this is a heap of the kernel's domain.
    pub fn is_kernel(&self) -> (kernel: bool)
        ensures
            kernel == (self.privilege() == Privilege::Kernel),
    {
        match self.privilege {
            Privilege::Kernel => true,
            _ => false,
        }
    }

    /// The next virtual address that an allocation is placed at.
    pub fn next_virtual_address(&self) -> (address: usize)
        ensures
            address == self.cursor(),
    {
        self.next_virtual_addr
    }

    /// The bases of the free blocks of `order`, oldest first.
    pub fn free_list(&self, order: usize) -> (bases: Vec<usize>)
        requires
            self.wf(),
            order <= MAX_ORDER,
        ensures
            bases@ == self.list(order as int),
    {
        let mut bases: Vec<usize> = Vec::new();
        let count = self.free_counts[order];
        assert(self.list(order as int).len() == count);
        let mut i: usize = 0;
        while i < count
            invariant
                i <= count <= LIST_COUNT,
                order <= MAX_ORDER,
                count == self.free_counts[order as int],
                bases@.len() == i,
                forall|j: int| 0 <= j < i ==> bases@[j] == self.free_lists[order as int][j],
            decreases count - i,
        {
            bases.push(self.free_lists[order][i]);
            i += 1;
        }
        assert(bases@ =~= self.list(order as int));
        bases
    }

    /// The number of free blocks of each order.
    pub fn free_counts(&self) -> (counts: [usize; 11])
        ensures
            forall|k: int| 0 <= k <= MAX_ORDER ==> counts[k] == self.list(k).len(),
    {
        self.free_counts
    }

    /// How many pages a request of `size` bytes takes of the window: the
    /// pages of the block of its order up to 4 MiB, beyond as many as
    /// hold it.
    pub open spec fn request_pages(size: int) -> int {
        if fit_order(size) <= MAX_ORDER {
            block_pages(fit_order(size))
        } else {
            Self::pages_for(size)
        }
    }

    /// The number of pages that a request of `size` bytes takes.
    pub fn pages_taken(&self, size: usize) -> (pages: usize)
        ensures
            pages == Self::request_pages(size as int),
    {
        match self.size_to_order(size) {
            Some(order) => {
                proof {
                    lemma_fit_order(size as int, order as int);
                    lemma_shift_is_pages(order);
                }
                1usize << order
            },
            None => {
                proof {
                    lemma_fit_order_large(size as int);
                }
                if size % PAGE_SIZE == 0 {
                    size / PAGE_SIZE
                } else {
                    size / PAGE_SIZE + 1
                }
            },
        }
    }

    /// The order of the smallest block that holds `size` bytes, if one of
    /// the eleven orders does.
    pub fn size_to_order(&self, size: usize) -> (order: Option<usize>)
        ensures
            match order {
                Some(k) => k <= MAX_ORDER && size <= block_size(k as int) && (k > 0 ==> block_size(
                    k - 1,
                ) < size),
                None => block_size(MAX_ORDER as int) < size,
            },
    {
        let mut order: usize = 0;
        let mut block_size: usize = PAGE_SIZE;
        proof {
            lemma_block_pages(0);
        }
        while block_size < size && order < MAX_ORDER
            invariant
                order <= MAX_ORDER,
                block_size == self::block_size(order as int),
                order > 0 ==> self::block_size(order - 1) < size,
            decreases MAX_ORDER - order,
        {
            proof {
                lemma_block_pages(order as int);
                lemma_block_pages(order as int + 1);
            }
            block_size *= 2;
            order += 1;
        }
        if block_size >= size {
            Some(order)
        } else {
            None
        }
    }

    /// The order of the largest block of at most `size` bytes; none if
    /// `size` is no whole number of pages or is zero.
    pub fn match_order(&self, size: usize) -> (order: Option<usize>)
        ensures
            match order {
                Some(k) => size >= PAGE_SIZE && size % PAGE_SIZE == 0 && k <= MAX_ORDER && block_size(
                    k as int,
                ) <= size && (k < MAX_ORDER ==> size < block_size(k + 1)),
                None => size < PAGE_SIZE || size % PAGE_SIZE != 0,
            },
    {
        let mut order: usize = 0;
        let mut block_size: usize = PAGE_SIZE;
        if block_size > size || size % PAGE_SIZE != 0 {
            return None;
        }
        proof {
            lemma_block_pages(0);
        }
        while order < MAX_ORDER && block_size * 2 <= size
            invariant
                order <= MAX_ORDER,
                block_size == self::block_size(order as int),
                block_size <= size,
                block_size <= 0x40_0000,
            decreases MAX_ORDER - order,
        {
            proof {
                lemma_block_pages(order as int);
                lemma_block_pages(order as int + 1);
            }
            block_size *= 2;
            order += 1;
        }
        proof {
            lemma_block_pages(order as int);
        }
        Some(order)
    }

    /// Hands out the block of `order` at `physical_address`: marks its
    /// frames, maps them at the cursor if paging is on, and moves the
    /// cursor. Returns the virtual base, or the physical base without
    /// paging.
    pub fn allocate_address(
        &mut self,
        dir: &mut PageDirectory,
        bitmap: &mut PhysicalMemory,
        physical_address: usize,
        order: usize,
    ) -> (address: usize)
        requires
            order <= MAX_ORDER,
            old(dir).wf(),
            physical_address % 0x1000 == 0,
            physical_address + block_size(order as int) <= 0x1_0000_0000,
            old(self).cursor() % 0x1000 == 0,
            old(self).cursor() + block_size(order as int) <= old(self).window_end(),
            old(self).window_ready(old(dir)),
            forall|frame: int|
                physical_address as int / 0x1000 <= frame < physical_address as int / 0x1000
                    + block_pages(order as int) ==> !old(bitmap)@.contains(frame),
        ensures
            final(dir).wf(),
            final(self).window_ready(final(dir)),
            final(self).cursor() % 0x1000 == 0,
            forall|k: int| 0 <= k <= MAX_ORDER ==> final(self).list(k) == old(self).list(k),
            address == old(self).handed_address(physical_address),
            old(self).handed_out(
                old(dir),
                old(bitmap),
                final(self),
                final(dir),
                final(bitmap),
                physical_address,
                order as int,
            ),
    {
        let virtual_address = self.next_virtual_addr;
        proof {
            lemma_shift_is_pages(order);
            lemma_block_pages(order as int);
        }
        let num_pages: usize = 1usize << order;
        let flags: usize = if self.privilege == Privilege::Kernel {
            0x3
        } else {
            0x7
        };
        let ghost first = physical_address as int / 0x1000;
        let mut i: usize = 0;
        while i < num_pages
            invariant
                i <= num_pages,
                num_pages == block_pages(order as int),
                1 <= num_pages <= 1024,
                order <= MAX_ORDER,
                dir.wf(),
                physical_address % 0x1000 == 0,
                physical_address + 0x1000 * num_pages <= 0x1_0000_0000,
                virtual_address % 0x1000 == 0,
                virtual_address == old(self).cursor(),
                virtual_address + 0x1000 * num_pages <= old(self).window_end(),
                old(self).window_ready(old(dir)),
                *self == *old(self),
                flags == domain_flags(old(self).privilege()),
                first == physical_address as int / 0x1000,
                forall|frame: int| first <= frame < first + num_pages ==> !old(bitmap)@.contains(frame),
                bitmap@ == old(bitmap)@.union(Set::new(|frame: int| first <= frame < first + i)),
                bitmap.cursor() == old(bitmap).cursor_after_run(first, i as int),
                self.paging_status ==> old(dir).run_mapped(
                    dir,
                    virtual_address as int,
                    physical_address as int,
                    i as int,
                    flags,
                ),
                !self.paging_status ==> *dir == *old(dir),
            decreases num_pages - i,
        {
            let cur_virtual_addr = virtual_address + i * PAGE_SIZE;
            let cur_physical_addr = physical_address + i * PAGE_SIZE;
            let ghost bitmap_before = bitmap@;
            match bitmap.alloc_frame_address(cur_physical_addr) {
                Ok(()) => {},
                Err(_) => {
                    proof {
                        assert(cur_physical_addr as int / 0x1000 == first + i);
                        assert(false);
                    }
                },
            }
            proof {
                assert(cur_physical_addr as int / 0x1000 == first + i);
                assert(bitmap@ =~= old(bitmap)@.union(
                    Set::new(|frame: int| first <= frame < first + (i + 1)),
                ));
            }
            if self.paging_status {
                let ghost dir_before = *dir;
                let ghost page = cur_virtual_addr as int / 0x1000;
                proof {
                    assert(page == virtual_address as int / 0x1000 + i);
                    assert(page / 1024 == cur_virtual_addr as int / 0x40_0000);
                    assert(old(self).cursor() as int / 0x1000 <= page < old(self).window_end() as int
                        / 0x1000);
                    assert(old(dir).mappable(page));
                    assert(dir.page_word(page) == old(dir).page_word(page));
                }
                match dir.map_page(bitmap, cur_virtual_addr, cur_physical_addr, flags) {
                    Ok(()) => {},
                    Err(_) => {
                        proof {
                            assert(false);
                        }
                    },
                }
                proof {
                    assert forall|q: int| 0 <= q < N_FRAMES implies #[trigger] dir.page_word(q)
                        == if virtual_address as int / 0x1000 <= q < virtual_address as int / 0x1000
                        + (i + 1) {
                        ((physical_address as int + (q - virtual_address as int / 0x1000)
                            * 0x1000) as usize) | flags
                    } else {
                        old(dir).page_word(q)
                    } by {
                        assert(dir_before.page_word(q) == dir_before.pte(q / 1024, q % 1024));
                        if q == page {
                        } else {
                            assert(q / 1024 != page / 1024 || q % 1024 != page % 1024);
                        }
                    }
                }
            }
            i += 1;
        }
        self.next_virtual_addr = virtual_address + num_pages * PAGE_SIZE;
        proof {
            if self.paging_status {
                assert(self.cursor() as int / 0x1000 == virtual_address as int / 0x1000 + num_pages);
                assert forall|page: int|
                    self.cursor() as int / 0x1000 <= page < self.window_end() as int
                        / 0x1000 implies #[trigger] dir.mappable(page) by {
                    assert(old(dir).mappable(page));
                    assert(dir.page_word(page) == old(dir).page_word(page));
                    assert(0 <= page / 1024 < 1024);
                    assert(dir.pde(page / 1024) == old(dir).pde(page / 1024));
                }
            }
        }
        if self.paging_status {
            virtual_address
        } else {
            physical_address
        }
    }

    /// Taking a block off the lists and splitting it keeps the lists well
    /// formed, and leaves the heap no frame that it did not own or that
    /// belongs to the piece handed out.
    pub proof fn lemma_split(&self, post: &HeapAllocator, higher: int, target: int)
        requires
            self.wf(),
            0 <= target <= higher <= MAX_ORDER,
            self.list(higher).len() > 0,
            self.split_from(post, higher, target),
            post.cursor() % 0x1000 == 0,
        ensures
            post.wf(),
            forall|frame: int| #[trigger]
                post.owns_frame(frame) ==> self.owns_frame(frame) && !in_block(
                    frame,
                    self.list(higher).last(),
                    target,
                ),
            self.list(higher).last() as int % block_size(target) == 0,
            self.list(higher).last() + block_size(target) <= 0x1_0000_0000,
            forall|frame: int|
                in_block(frame, self.list(higher).last(), target) ==> self.owns_frame(frame),
            forall|frame: int|
                self.owns_frame(frame) && !in_block(frame, self.list(higher).last(), higher)
                    ==> #[trigger] post.owns_frame(frame),
    {
        let last = self.list(higher).len() - 1;
        let base = self.list(higher)[last];
        lemma_block_size_order(target, higher);
        lemma_aligned_lower(base as int, target, higher);
        assert forall|k: int| 0 <= k <= MAX_ORDER implies (#[trigger] post.list(k)).len()
            <= LIST_COUNT by {
            assert(self.list(k).len() <= LIST_COUNT);
        }
        // Where each entry of the new lists comes from.
        assert forall|k: int, i: int| 0 <= k <= MAX_ORDER && 0 <= i < post.list(k).len() implies {
            let b = #[trigger] post.list(k)[i];
            &&& b as int % block_size(k) == 0
            &&& b + block_size(k) <= 0x1_0000_0000
            &&& (i < self.list(k).len() && !(k == higher && i == last) && b == self.list(k)[i]) || (
            target <= k < higher && i == self.list(k).len() && b == base + block_size(k))
        } by {
            assert(post.list(k) == post.list(k));
            lemma_block_size_order(k, 10);
            if k < higher {
                lemma_block_size_order(k + 1, higher);
                lemma_block_pages(k);
            }
            if i < self.list(k).len() {
                let c = self.list(k)[i];
            } else {
                lemma_aligned_lower(base as int, k, higher);
                lemma_add_aligned(base as int, block_size(k));
            }
        }
        assert forall|k1: int, i1: int, k2: int, i2: int|
            0 <= k1 <= MAX_ORDER && 0 <= i1 < post.list(k1).len() && 0 <= k2 <= MAX_ORDER && 0 <= i2
                < post.list(k2).len() && (k1 != k2 || i1 != i2) implies {
            ||| (#[trigger] post.list(k1)[i1]) + block_size(k1) <= (#[trigger] post.list(k2)[i2])
            ||| post.list(k2)[i2] + block_size(k2) <= post.list(k1)[i1]
        } by {
            let old1 = i1 < self.list(k1).len();
            let old2 = i2 < self.list(k2).len();
            lemma_block_size_order(k1, 10);
            lemma_block_size_order(k2, 10);
            if old1 && old2 {
                let a = self.list(k1)[i1];
                let b = self.list(k2)[i2];
            } else if old1 {
                let a = self.list(k1)[i1];
                lemma_block_size_order(k2 + 1, higher);
                lemma_block_pages(k2);
            } else if old2 {
                let b = self.list(k2)[i2];
                lemma_block_size_order(k1 + 1, higher);
                lemma_block_pages(k1);
            } else {
                lemma_block_pages(k1);
                lemma_block_pages(k2);
                if k1 < k2 {
                    lemma_block_size_order(k1 + 1, k2);
                } else {
                    lemma_block_size_order(k2 + 1, k1);
                }
            }
        }
        assert forall|frame: int| #[trigger] post.owns_frame(frame) implies self.owns_frame(frame)
            && !in_block(frame, base, target) by {
            let (k, i) = choose|k: int, i: int|
                0 <= k <= MAX_ORDER && 0 <= i < post.list(k).len() && in_block(
                    frame,
                    #[trigger] post.list(k)[i],
                    k,
                );
            let b = post.list(k)[i];
            if i < self.list(k).len() {
                assert(b == self.list(k)[i]);
                lemma_block_size_order(k, 10);
            } else {
                lemma_block_size_order(k + 1, higher);
                lemma_block_size_order(target, k);
                lemma_block_pages(k);
                assert(in_block(frame, self.list(higher)[last], higher));
            }
        }
        assert forall|frame: int| in_block(frame, base, target) implies self.owns_frame(frame) by {
            assert(in_block(frame, self.list(higher)[last], higher));
        }
        assert forall|frame: int|
            self.owns_frame(frame) && !in_block(frame, base, higher) implies #[trigger] post.owns_frame(
            frame,
        ) by {
            let (k, i) = choose|k: int, i: int|
                0 <= k <= MAX_ORDER && 0 <= i < self.list(k).len() && in_block(
                    frame,
                    #[trigger] self.list(k)[i],
                    k,
                );
            assert(!(k == higher && i == last));
            assert(post.list(k)[i] == self.list(k)[i]);
        }
    }

    /// The first stocked list from `from` up is stocked, and every list
    /// between `from` and it is empty.
    pub proof fn lemma_first_stocked(&self, from: int)
        requires
            0 <= from <= 11,
        ensures
            from <= self.first_stocked(from) <= 11,
            self.first_stocked(from) <= MAX_ORDER ==> self.list(self.first_stocked(from)).len() > 0,
            forall|m: int| from <= m < self.first_stocked(from) ==> (#[trigger] self.list(m)).len() == 0,
        decreases 11 - from,
    {
        if from <= MAX_ORDER && self.list(from).len() == 0 {
            self.lemma_first_stocked(from + 1);
        }
    }

    /// After a block was taken off the lists, split and handed out, the
    /// heap still fits the directory and the bitmap.
    proof fn lemma_taken(
        &self,
        dir: &PageDirectory,
        bitmap: &PhysicalMemory,
        mid: &HeapAllocator,
        post: &HeapAllocator,
        post_dir: &PageDirectory,
        post_bitmap: &PhysicalMemory,
        higher: int,
        target: int,
    )
        requires
            self.inv(dir, bitmap),
            0 <= target <= higher <= MAX_ORDER,
            self.list(higher).len() > 0,
            self.split_from(mid, higher, target),
            mid.cursor() == self.cursor(),
            mid.privilege() == self.privilege(),
            mid.paging() == self.paging(),
            mid.window_end() == self.window_end(),
            forall|k: int| 0 <= k <= MAX_ORDER ==> post.list(k) == mid.list(k),
            post.cursor() % 0x1000 == 0,
            post_dir.wf(),
            post.window_ready(post_dir),
            mid.handed_out(dir, bitmap, post, post_dir, post_bitmap, self.list(higher).last(), target),
        ensures
            post.inv(post_dir, post_bitmap),
            self.split_from(post, higher, target),
            self.handed_out(dir, bitmap, post, post_dir, post_bitmap, self.list(higher).last(), target),
    {
        let base = self.list(higher).last();
        assert forall|k: int| 0 <= k <= MAX_ORDER implies #[trigger] post.list(k) == if k == higher {
            self.list(k).drop_last()
        } else if target <= k < higher && self.list(k).len() < LIST_COUNT {
            self.list(k).push((base + block_size(k)) as usize)
        } else {
            self.list(k)
        } by {
            assert(post.list(k) == mid.list(k));
        }
        self.lemma_split(post, higher, target);
        lemma_block_pages(0);
        lemma_aligned_lower(base as int, 0, target);
        assert forall|frame: int| post.owns_frame(frame) implies !post_bitmap@.contains(frame) by {
            assert(self.owns_frame(frame));
            assert(!in_block(frame, base, target));
            assert(!bitmap@.contains(frame));
        }
    }

    /// Takes the last block of order `higher`, splits it down to order
    /// `target` and hands out the lowest piece. At each step the upper
    /// half goes to the list of its order, unless that list is full.
    pub fn allocate_split(
        &mut self,
        dir: &mut PageDirectory,
        bitmap: &mut PhysicalMemory,
        higher_order: usize,
        target_order: usize,
    ) -> (address: usize)
        requires
            old(self).inv(old(dir), old(bitmap)),
            target_order <= higher_order <= MAX_ORDER,
            old(self).list(higher_order as int).len() > 0,
            old(self).cursor() + block_size(target_order as int) <= old(self).window_end(),
        ensures
            final(self).inv(final(dir), final(bitmap)),
            address == old(self).handed_address(old(self).list(higher_order as int).last()),
            old(self).split_from(final(self), higher_order as int, target_order as int),
            old(self).handed_out(
                old(dir),
                old(bitmap),
                final(self),
                final(dir),
                final(bitmap),
                old(self).list(higher_order as int).last(),
                target_order as int,
            ),
    {
        let count = self.free_counts[higher_order];
        let physical_address = self.free_lists[higher_order][count - 1];
        self.free_counts[higher_order] = count - 1;
        proof {
            assert(physical_address == old(self).list(higher_order as int).last());
            assert(physical_address == old(self).list(higher_order as int)[count - 1]);
            assert(self.list(higher_order as int) =~= old(self).list(higher_order as int).drop_last());
            assert forall|k: int| 0 <= k <= MAX_ORDER && k != higher_order implies self.list(k)
                == old(self).list(k) by {
                assert(self.list(k) =~= old(self).list(k));
            }
        }
        let mut current_order = higher_order;
        while current_order > target_order
            invariant
                target_order <= current_order <= higher_order <= MAX_ORDER,
                old(self).wf(),
                old(self).list(higher_order as int).len() > 0,
                physical_address == old(self).list(higher_order as int).last(),
                self.next_virtual_addr == old(self).next_virtual_addr,
                self.end_virtual_addr == old(self).end_virtual_addr,
                self.privilege == old(self).privilege,
                self.paging_status == old(self).paging_status,
                forall|k: int|
                    0 <= k <= MAX_ORDER ==> #[trigger] self.list(k) == if k == higher_order {
                        old(self).list(k).drop_last()
                    } else if current_order <= k < higher_order && old(self).list(k).len()
                        < LIST_COUNT {
                        old(self).list(k).push((physical_address + block_size(k)) as usize)
                    } else {
                        old(self).list(k)
                    },
            decreases current_order,
        {
            current_order -= 1;
            proof {
                let last = old(self).list(higher_order as int).len() - 1;
                assert(physical_address == old(self).list(higher_order as int)[last]);
                lemma_block_size_order(higher_order as int, 10);
                lemma_aligned_lower(physical_address as int, current_order + 1, higher_order as int);
                lemma_buddy(physical_address, current_order);
                lemma_block_size_order(current_order as int, 10);
                assert(self.list(current_order as int) == old(self).list(current_order as int));
                assert(old(self).list(current_order as int).len() <= LIST_COUNT);
            }
            let buddy = physical_address ^ (1usize << (current_order + 12));
            let ghost before = *self;
            if self.free_counts[current_order] < LIST_COUNT {
                let c = self.free_counts[current_order];
                self.free_lists[current_order][c] = buddy;
                self.free_counts[current_order] = c + 1;
                proof {
                    assert(self.list(current_order as int) =~= before.list(current_order as int).push(
                        buddy,
                    ));
                }
            }
            proof {
                assert forall|k: int| 0 <= k <= MAX_ORDER && k != current_order implies self.list(k)
                    == before.list(k) by {
                    assert(self.list(k) =~= before.list(k));
                }
                assert(buddy == (physical_address + block_size(current_order as int)) as usize);
                assert forall|k: int| 0 <= k <= MAX_ORDER implies #[trigger] self.list(k) == if k
                    == higher_order {
                    old(self).list(k).drop_last()
                } else if current_order <= k < higher_order && old(self).list(k).len() < LIST_COUNT {
                    old(self).list(k).push((physical_address + block_size(k)) as usize)
                } else {
                    old(self).list(k)
                } by {
                    if k == current_order {
                        assert(before.list(k) == old(self).list(k));
                    } else {
                        assert(self.list(k) == before.list(k));
                    }
                }
            }
        }
        let ghost mid = *self;
        proof {
            old(self).lemma_split(&mid, higher_order as int, target_order as int);
            lemma_block_size_order(target_order as int, 10);
            lemma_block_pages(0);
            lemma_aligned_lower(physical_address as int, 0, target_order as int);
            assert forall|frame: int|
                physical_address as int / 0x1000 <= frame < physical_address as int / 0x1000
                    + block_pages(target_order as int) implies !old(bitmap)@.contains(frame) by {
                assert(in_block(frame, physical_address, target_order as int));
                assert(old(self).owns_frame(frame));
            }
        }
        let address = self.allocate_address(dir, bitmap, physical_address, target_order);
        proof {
            old(self).lemma_taken(
                old(dir),
                old(bitmap),
                &mid,
                &*self,
                &*dir,
                &*bitmap,
                higher_order as int,
                target_order as int,
            );
        }
        address
    }

    /// The fallback when neither list `target_order` nor a list above it
    /// holds a block: one block of the highest order below that has at
    /// least as many blocks as make up the request is handed out at its
    /// own order. The request itself fails.
    pub fn allocate_merge(
        &mut self,
        dir: &mut PageDirectory,
        bitmap: &mut PhysicalMemory,
        target_order: usize,
    ) -> (address: Option<usize>)
        requires
            old(self).inv(old(dir), old(bitmap)),
            target_order <= MAX_ORDER,
            old(self).cursor() + block_size(target_order as int) <= old(self).window_end(),
        ensures
            final(self).inv(final(dir), final(bitmap)),
            address is None,
            ({
                let o = old(self).merge_source(target_order as int, target_order - 1);
                if o >= 0 {
                    old(self).split_from(final(self), o, o) && old(self).handed_out(
                        old(dir),
                        old(bitmap),
                        final(self),
                        final(dir),
                        final(bitmap),
                        old(self).list(o).last(),
                        o,
                    )
                } else {
                    *final(self) == *old(self) && *final(dir) == *old(dir) && *final(bitmap) == *old(
                        bitmap,
                    )
                }
            }),
    {
        let mut current_order = target_order;
        while current_order > 0
            invariant
                current_order <= target_order <= MAX_ORDER,
                *self == *old(self),
                *dir == *old(dir),
                *bitmap == *old(bitmap),
                old(self).inv(old(dir), old(bitmap)),
                old(self).cursor() + block_size(target_order as int) <= old(self).window_end(),
                old(self).merge_source(target_order as int, target_order - 1) == old(
                    self,
                ).merge_source(target_order as int, current_order - 1),
            decreases current_order,
        {
            current_order -= 1;
            proof {
                lemma_shift_is_pages((target_order - current_order) as usize);
                lemma_block_pages(target_order - current_order);
                lemma_block_size_order(current_order as int, target_order as int);
            }
            let required_blocks: usize = 1usize << (target_order - current_order);
            if self.free_counts[current_order] >= required_blocks {
                let _ = self.allocate_split(dir, bitmap, current_order, current_order);
                return None;
            }
        }
        None
    }

    /// Hands out one block of `order`: from its own list, else split from
    /// the lowest stocked list above; with `fallback`, the merge path
    /// comes last.
    pub fn allocate_order(
        &mut self,
        dir: &mut PageDirectory,
        bitmap: &mut PhysicalMemory,
        order: usize,
        fallback: bool,
    ) -> (address: Option<usize>)
        requires
            old(self).inv(old(dir), old(bitmap)),
            order <= MAX_ORDER,
        ensures
            final(self).inv(final(dir), final(bitmap)),
            old(self).allocate_order_post(
                old(dir),
                old(bitmap),
                final(self),
                final(dir),
                final(bitmap),
                order as int,
                fallback,
                address,
            ),
    {
        proof {
            lemma_shift_is_pages(order);
            lemma_block_size_order(order as int, 10);
        }
        if self.end_virtual_addr < self.next_virtual_addr || self.end_virtual_addr
            - self.next_virtual_addr < (PAGE_SIZE << order) {
            return None;
        }
        let mut higher_order = order;
        while higher_order <= MAX_ORDER && self.free_counts[higher_order] == 0
            invariant
                order <= higher_order <= MAX_ORDER + 1,
                *self == *old(self),
                old(self).first_stocked(order as int) == old(self).first_stocked(higher_order as int),
            decreases MAX_ORDER + 1 - higher_order,
        {
            higher_order += 1;
        }
        proof {
            old(self).lemma_first_stocked(higher_order as int);
        }
        if higher_order <= MAX_ORDER {
            Some(self.allocate_split(dir, bitmap, higher_order, order))
        } else if fallback {
            self.allocate_merge(dir, bitmap, order)
        } else {
            None
        }
    }

    /// The physical base of the block of `order` under `address`, if that
    /// block can be taken back.
    pub fn find_live_block(
        &self,
        dir: &PageDirectory,
        bitmap: &PhysicalMemory,
        address: usize,
        order: usize,
    ) -> (base: Option<usize>)
        requires
            dir.wf(),
            order <= MAX_ORDER,
        ensures
            match base {
                Some(b) => self.live_block(dir, bitmap, address, order as int) && b == self.block_base(
                    dir,
                    address,
                ),
                None => !self.live_block(dir, bitmap, address, order as int),
            },
    {
        proof {
            lemma_shift_is_pages(order);
            lemma_block_pages(order as int);
            lemma_block_size_order(order as int, 10);
        }
        let size: usize = PAGE_SIZE << order;
        let num_pages: usize = 1usize << order;
        let limit: usize = if self.paging_status {
            RECURSIVE_WINDOW
        } else {
            0xFFFF_FFFF
        };
        if address % PAGE_SIZE != 0 || address > limit || limit - address < size - (if self.paging_status {
            0usize
        } else {
            1usize
        }) {
            return None;
        }
        let first = if self.paging_status {
            match dir.translate(address) {
                Some(pa) => pa,
                None => {
                    proof {
                        let page = address as int / 0x1000;
                        assert(page / 1024 == dir_index(address as int));
                        assert(page % 1024 == table_index(address as int));
                        assert(!self.page_live(dir, bitmap, address, page));
                    }
                    return None;
                },
            }
        } else {
            address
        };
        proof {
            if self.paging_status {
                let page = address as int / 0x1000;
                assert(page / 1024 == dir_index(address as int));
                assert(page % 1024 == table_index(address as int));
                let word = dir.page_word(page);
                lemma_word_frame(word);
            }
        }
        if first % size != 0 {
            return None;
        }
        let mut n: usize = 0;
        while n < num_pages
            invariant
                n <= num_pages,
                num_pages == block_pages(order as int),
                size == block_size(order as int),
                1 <= num_pages <= 1024,
                order <= MAX_ORDER,
                dir.wf(),
                address % 0x1000 == 0,
                first % 0x1000 == 0,
                first == self.block_base(dir, address),
                first <= 0xFFFF_F000,
                address + size <= if self.paging() {
                    RECURSIVE_WINDOW as int
                } else {
                    0x1_0000_0000
                },
                forall|page: int|
                    address as int / 0x1000 <= page < address as int / 0x1000 + n
                        ==> #[trigger] self.page_live(dir, bitmap, address, page),
            decreases num_pages - n,
        {
            let va = address + n * PAGE_SIZE;
            let ghost page = va as int / 0x1000;
            proof {
                assert(page == address as int / 0x1000 + n);
                assert(page / 1024 == dir_index(va as int));
                assert(page % 1024 == table_index(va as int));
            }
            let pa = if self.paging_status {
                match dir.translate(va) {
                    Some(pa) => pa,
                    None => {
                        proof {
                            assert(!self.page_live(dir, bitmap, address, page));
                        }
                        return None;
                    },
                }
            } else {
                va
            };
            proof {
                if self.paging_status {
                    let word = dir.page_word(page);
                    lemma_word_frame(word);
                }
            }
            if pa > 0xFFFF_F000 || pa < n * PAGE_SIZE || pa - n * PAGE_SIZE != first {
                proof {
                    assert(!self.page_live(dir, bitmap, address, page));
                }
                return None;
            }
            if bitmap.is_address_free(pa) {
                proof {
                    assert(!self.page_live(dir, bitmap, address, page));
                }
                return None;
            }
            proof {
                assert(self.page_live(dir, bitmap, address, page));
            }
            n += 1;
        }
        Some(first)
    }

    /// Two aligned blocks that share an address share a frame.
    proof fn lemma_overlap_shares_frame(a: usize, ka: int, b: usize, kb: int) -> (frame: int)
        requires
            0 <= ka <= MAX_ORDER,
            0 <= kb <= MAX_ORDER,
            a as int % block_size(ka) == 0,
            b as int % block_size(kb) == 0,
            !(a + block_size(ka) <= b || b + block_size(kb) <= a),
        ensures
            in_block(frame, a, ka),
            in_block(frame, b, kb),
    {
        lemma_block_size_order(ka, 10);
        lemma_block_size_order(kb, 10);
        lemma_block_pages(0);
        lemma_aligned_lower(a as int, 0, ka);
        lemma_aligned_lower(b as int, 0, kb);
        if a >= b {
            a as int / 0x1000
        } else {
            b as int / 0x1000
        }
    }

    /// After a live block went back onto its list, the heap still fits
    /// the directory and the bitmap.
    proof fn lemma_released(
        &self,
        dir: &PageDirectory,
        bitmap: &PhysicalMemory,
        post: &HeapAllocator,
        post_dir: &PageDirectory,
        post_bitmap: &PhysicalMemory,
        address: usize,
        order: int,
    )
        requires
            self.inv(dir, bitmap),
            0 <= order <= MAX_ORDER,
            self.live_block(dir, bitmap, address, order),
            self.list(order).len() < LIST_COUNT,
            self.release_block_post(
                dir,
                bitmap,
                post,
                post_dir,
                post_bitmap,
                address,
                order,
                Ok::<(), HeapError>(()),
            ),
            post_dir.wf(),
        ensures
            post.inv(post_dir, post_bitmap),
    {
        let base = self.block_base(dir, address);
        let first = address as int / 0x1000;
        lemma_block_size_order(order, 10);
        lemma_block_pages(0);
        lemma_block_pages(order);
        lemma_aligned_lower(base as int, 0, order);
        assert(self.page_live(dir, bitmap, address, first));
        if self.paging() {
            let word = dir.page_word(first);
            lemma_word_frame(word);
        }
        assert(self.page_live(dir, bitmap, address, first + block_pages(order) - 1));
        assert(base + block_size(order) <= 0x1_0000_0000);
        // Every frame of the block was in use.
        assert forall|frame: int| in_block(frame, base, order) implies bitmap@.contains(frame) by {
            let page = first + (frame - base as int / 0x1000);
            assert(self.page_live(dir, bitmap, address, page));
        }
        let n = self.list(order).len() as int;
        assert forall|k: int| 0 <= k <= MAX_ORDER implies (#[trigger] post.list(k)).len()
            <= LIST_COUNT by {
            assert(self.list(k).len() <= LIST_COUNT);
            if k != order {
                assert(post.list(k) == self.list(k));
            }
        }
        assert forall|k: int, i: int| 0 <= k <= MAX_ORDER && 0 <= i < post.list(k).len() implies {
            let b = #[trigger] post.list(k)[i];
            &&& b as int % block_size(k) == 0
            &&& b + block_size(k) <= 0x1_0000_0000
            &&& (k == order && i == n && b == base) || (i < self.list(k).len() && b == self.list(
                k,
            )[i])
        } by {
            if k != order {
                assert(post.list(k) == self.list(k));
            }
            if !(k == order && i == n) {
                let c = self.list(k)[i];
            }
        }
        assert forall|k1: int, i1: int, k2: int, i2: int|
            0 <= k1 <= MAX_ORDER && 0 <= i1 < post.list(k1).len() && 0 <= k2 <= MAX_ORDER && 0 <= i2
                < post.list(k2).len() && (k1 != k2 || i1 != i2) implies {
            ||| (#[trigger] post.list(k1)[i1]) + block_size(k1) <= (#[trigger] post.list(k2)[i2])
            ||| post.list(k2)[i2] + block_size(k2) <= post.list(k1)[i1]
        } by {
            let new1 = k1 == order && i1 == n;
            let new2 = k2 == order && i2 == n;
            let a = post.list(k1)[i1];
            let b = post.list(k2)[i2];
            if new1 && !new2 {
                assert(b == self.list(k2)[i2]);
                if !(a + block_size(k1) <= b || b + block_size(k2) <= a) {
                    let frame = Self::lemma_overlap_shares_frame(a, k1, b, k2);
                    assert(self.owns_frame(frame));
                }
            } else if new2 && !new1 {
                assert(a == self.list(k1)[i1]);
                if !(a + block_size(k1) <= b || b + block_size(k2) <= a) {
                    let frame = Self::lemma_overlap_shares_frame(a, k1, b, k2);
                    assert(self.owns_frame(frame));
                }
            } else {
                assert(a == self.list(k1)[i1]);
                assert(b == self.list(k2)[i2]);
            }
        }
        assert forall|frame: int| post.owns_frame(frame) implies !post_bitmap@.contains(frame) by {
            let (k, i) = choose|k: int, i: int|
                0 <= k <= MAX_ORDER && 0 <= i < post.list(k).len() && in_block(
                    frame,
                    #[trigger] post.list(k)[i],
                    k,
                );
            if k == order && i == n {
            } else {
                assert(post.list(k)[i] == self.list(k)[i]);
                assert(self.owns_frame(frame));
            }
        }
        if self.paging() {
            assert forall|page: int|
                post.cursor() as int / 0x1000 <= page < post.window_end() as int
                    / 0x1000 implies #[trigger] post_dir.mappable(page) by {
                assert(dir.mappable(page));
                assert(0 <= page / 1024 < 1024);
                assert(post_dir.pde(page / 1024) == dir.pde(page / 1024));
                if first <= page < first + block_pages(order) {
                    assert(post_dir.page_word(page) == 0);
                    lemma_entry_word(0, 0);
                } else {
                    assert(post_dir.page_word(page) == dir.page_word(page));
                }
            }
        }
    }

    /// Takes back the block of `order` handed out under `address`: its
    /// base goes onto the list of its order, and its pages are unmapped,
    /// which frees their frames; without paging the frames are freed
    /// directly. A block that is not live, or whose list is full, is
    /// refused and nothing changes.
    pub fn release_block(
        &mut self,
        dir: &mut PageDirectory,
        bitmap: &mut PhysicalMemory,
        address: usize,
        order: usize,
    ) -> (r: Result<(), HeapError>)
        requires
            old(self).inv(old(dir), old(bitmap)),
            order <= MAX_ORDER,
        ensures
            final(self).inv(final(dir), final(bitmap)),
            old(self).release_block_post(
                old(dir),
                old(bitmap),
                final(self),
                final(dir),
                final(bitmap),
                address,
                order as int,
                r,
            ),
    {
        let base = match self.find_live_block(dir, bitmap, address, order) {
            Some(base) => base,
            None => {
                return Err(HeapError::InvalidBlock);
            },
        };
        if self.free_counts[order] >= LIST_COUNT {
            return Err(HeapError::ListFull);
        }
        let count = self.free_counts[order];
        self.free_lists[order][count] = base;
        self.free_counts[order] = count + 1;
        proof {
            assert(self.list(order as int) =~= old(self).list(order as int).push(base));
            assert forall|k: int| 0 <= k <= MAX_ORDER && k != order implies self.list(k) == old(
                self,
            ).list(k) by {
                assert(self.list(k) =~= old(self).list(k));
            }
            lemma_shift_is_pages(order);
            lemma_block_pages(order as int);
            lemma_block_pages(0);
            lemma_block_size_order(order as int, 10);
            lemma_aligned_lower(base as int, 0, order as int);
        }
        let num_pages: usize = 1usize << order;
        let ghost first = address as int / 0x1000;
        let ghost first_frame = base as int / 0x1000;
        let mut i: usize = 0;
        while i < num_pages
            invariant
                i <= num_pages,
                num_pages == block_pages(order as int),
                1 <= num_pages <= 1024,
                order <= MAX_ORDER,
                dir.wf(),
                old(dir).wf(),
                first == address as int / 0x1000,
                first_frame == base as int / 0x1000,
                base % 0x1000 == 0,
                base == old(self).block_base(old(dir), address),
                self.paging_status == old(self).paging(),
                old(self).live_block(old(dir), old(bitmap), address, order as int),
                bitmap@ == old(bitmap)@.difference(
                    Set::new(|frame: int| first_frame <= frame < first_frame + i),
                ),
                bitmap.cursor() == old(bitmap).cursor_after_run(first_frame, i as int),
                self.paging_status ==> old(dir).run_unmapped(dir, address as int, i as int),
                !self.paging_status ==> *dir == *old(dir),
            decreases num_pages - i,
        {
            let virtual_addr = address + i * PAGE_SIZE;
            let ghost page = first + i;
            proof {
                assert(old(self).page_live(old(dir), old(bitmap), address, page));
                assert(virtual_addr as int / 0x1000 == page);
                assert(page / 1024 == dir_index(virtual_addr as int));
                assert(page % 1024 == table_index(virtual_addr as int));
            }
            if self.paging_status {
                let ghost dir_before = *dir;
                proof {
                    assert(dir.page_word(page) == old(dir).page_word(page));
                    assert(dir.pde(page / 1024) == old(dir).pde(page / 1024));
                }
                match dir.unmap_page(bitmap, virtual_addr) {
                    Ok(()) => {},
                    Err(_) => {
                        proof {
                            assert(false);
                        }
                    },
                }
                proof {
                    assert forall|q: int| 0 <= q < N_FRAMES implies #[trigger] dir.page_word(q)
                        == if first <= q < first + (i + 1) {
                        0
                    } else {
                        old(dir).page_word(q)
                    } by {
                        assert(dir_before.page_word(q) == dir_before.pte(q / 1024, q % 1024));
                        if q == page {
                        } else {
                            assert(q / 1024 != page / 1024 || q % 1024 != page % 1024);
                        }
                    }
                }
            } else {
                match bitmap.free_frame(virtual_addr) {
                    Ok(()) => {},
                    Err(_) => {
                        proof {
                            assert(false);
                        }
                    },
                }
            }
            proof {
                assert(bitmap@ =~= old(bitmap)@.difference(
                    Set::new(|frame: int| first_frame <= frame < first_frame + (i + 1)),
                ));
            }
            i += 1;
        }
        proof {
            old(self).lemma_released(
                old(dir),
                old(bitmap),
                &*self,
                &*dir,
                &*bitmap,
                address,
                order as int,
            );
        }
        Ok(())
    }

    proof fn lemma_large_step(
        &self,
        dir: &PageDirectory,
        bitmap: &PhysicalMemory,
        now: &HeapAllocator,
        now_dir: &PageDirectory,
        now_bitmap: &PhysicalMemory,
        done: int,
        next: &HeapAllocator,
        next_dir: &PageDirectory,
        next_bitmap: &PhysicalMemory,
        order: int,
    )
        requires
            self.paging(),
            self.cursor() % 0x1000 == 0,
            0 <= done,
            self.large_progress(dir, bitmap, now, now_dir, now_bitmap, done),
            0 <= order <= MAX_ORDER,
            now.list(order).len() > 0,
            now.cursor() + block_size(order) <= now.window_end(),
            next.inv(next_dir, next_bitmap),
            now.split_from(next, order, order),
            now.handed_out(
                now_dir,
                now_bitmap,
                next,
                next_dir,
                next_bitmap,
                now.list(order).last(),
                order,
            ),
        ensures
            self.large_progress(dir, bitmap, next, next_dir, next_bitmap, done + block_pages(order)),
    {
        let base = now.list(order).last();
        let first = self.cursor() as int / 0x1000;
        let flags = domain_flags(self.privilege());
        let pages = block_pages(order);
        let last = now.list(order).len() - 1;
        now.lemma_split(next, order, order);
        lemma_block_pages(order);
        lemma_block_pages(0);
        lemma_block_size_order(order, 10);
        lemma_aligned_lower(base as int, 0, order);
        assert(base == now.list(order)[last]);
        assert(now.cursor() as int / 0x1000 == first + done);
        assert forall|k: int| 0 <= k <= MAX_ORDER implies (#[trigger] next.list(k)).len()
            <= self.list(k).len() && next.list(k) == self.list(k).take(next.list(k).len() as int) by {
            assert(now.list(k).len() <= self.list(k).len());
            if k == order {
                assert(next.list(k) =~= self.list(k).take(next.list(k).len() as int));
            }
        }
        // Ownership only shrinks, and what `next` lost against `now` is the block.
        assert forall|frame: int| now.owns_frame(frame) implies self.owns_frame(frame) by {
            let (k, i) = choose|k: int, i: int|
                0 <= k <= MAX_ORDER && 0 <= i < now.list(k).len() && in_block(
                    frame,
                    #[trigger] now.list(k)[i],
                    k,
                );
            assert(now.list(k).len() <= self.list(k).len());
            assert(self.list(k)[i] == now.list(k)[i]);
        }
        assert forall|frame: int|
            self.lost_frames(next).contains(frame) == (self.lost_frames(now).contains(frame)
                || in_block(frame, base, order)) by {
            if next.owns_frame(frame) {
                assert(now.owns_frame(frame));
            }
            if now.owns_frame(frame) && !in_block(frame, base, order) {
                assert(next.owns_frame(frame));
            }
        }
        assert(next_bitmap@ =~= bitmap@.union(self.lost_frames(next)));
        assert(next.cursor() == self.cursor() + (done + pages) * 0x1000);
        assert(flags <= 0xFFF);
        assert forall|page: int|
            0 <= page < N_FRAMES && !(first <= page < first + done + pages) implies #[trigger] next_dir.page_word(
            page,
        ) == dir.page_word(page) by {
            assert(now_dir.page_word(page) == dir.page_word(page));
        }
        assert forall|page: int| first <= page < first + done + pages implies {
            let word = #[trigger] next_dir.page_word(page);
            &&& self.lost_frames(next).contains(word_frame(word) as int / 0x1000)
            &&& word == word_frame(word) | flags
            &&& (page >= first + done ==> word_frame(word) as int / 0x1000 == base as int / 0x1000 + (
            page - first - done))
        } by {
            assert(0 <= page < N_FRAMES);
            if page < first + done {
                assert(next_dir.page_word(page) == now_dir.page_word(page));
                let word = now_dir.page_word(page);
                assert(self.lost_frames(now).contains(word_frame(word) as int / 0x1000));
            } else {
                let n = page - first - done;
                let address = (base + n * 0x1000) as usize;
                assert(next_dir.page_word(page) == address | flags);
                lemma_entry_word(address, flags);
                assert(in_block(address as int / 0x1000, base, order));
                lemma_entry_word(address, flags);
            }
        }
        assert forall|p: int, q: int|
            first <= p < first + done + pages && first <= q < first + done + pages && p
                != q implies word_frame(#[trigger] next_dir.page_word(p)) != word_frame(
            #[trigger] next_dir.page_word(q),
        ) by {
            let fp = word_frame(next_dir.page_word(p)) as int / 0x1000;
            let fq = word_frame(next_dir.page_word(q)) as int / 0x1000;
            if p < first + done && q < first + done {
                assert(next_dir.page_word(p) == now_dir.page_word(p));
                assert(next_dir.page_word(q) == now_dir.page_word(q));
            } else if p < first + done {
                assert(next_dir.page_word(p) == now_dir.page_word(p));
                assert(self.lost_frames(now).contains(fp));
                assert(in_block(fq, base, order));
                assert(now.owns_frame(fq));
            } else if q < first + done {
                assert(next_dir.page_word(q) == now_dir.page_word(q));
                assert(self.lost_frames(now).contains(fq));
                assert(in_block(fp, base, order));
                assert(now.owns_frame(fp));
            } else {
                assert(fp != fq);
            }
        }
    }

    proof fn lemma_large_left(&self, pages: int, order: int)
        requires
            0 <= pages,
            0 <= order <= 11,
        ensures
            0 <= self.large_left(pages, order) <= pages,
            order <= MAX_ORDER ==> 0 <= self.large_take(pages, order) <= self.list(order).len()
                && self.large_take(pages, order) * block_pages(order) <= self.large_left(
                pages,
                order + 1,
            ),
        decreases 11 - order,
    {
        if order <= MAX_ORDER {
            self.lemma_large_left(pages, order + 1);
            lemma_block_pages(order);
            let left = self.large_left(pages, order + 1);
            let bp = block_pages(order);
            let take = self.large_take(pages, order);
            assert(0 <= take && take * bp <= left && 0 <= take * bp) by (nonlinear_arith)
                requires
                    0 <= left,
                    bp >= 1,
                    take == left / bp || (0 <= take <= left / bp),
            ;
        }
    }

    /// While a large request takes its blocks from list `order`, no list
    /// above has a block left that would fit: `take_order` names `order`.
    proof fn lemma_take_order(
        &self,
        now: &HeapAllocator,
        pages: int,
        remaining: int,
        order: int,
        from: int,
    )
        requires
            0 <= pages,
            0 <= order <= from <= MAX_ORDER,
            forall|k: int|
                order < k <= MAX_ORDER ==> (#[trigger] now.list(k)).len() == self.list(k).len()
                    - self.large_take(pages, k),
            now.list(order).len() > 0,
            block_pages(order) <= remaining <= self.large_left(pages, order + 1),
        ensures
            now.take_order(remaining, from) == order,
        decreases from - order,
    {
        if from > order {
            self.lemma_large_left(pages, from);
            self.lemma_large_left(pages, from + 1);
            self.lemma_large_left_grows(pages, order + 1, from);
            lemma_block_pages(from);
            let left = self.large_left(pages, from + 1);
            let bp = block_pages(from);
            assert(now.list(from).len() == self.list(from).len() - self.large_take(pages, from));
            if self.large_take(pages, from) == left / bp {
                assert(left - (left / bp) * bp < bp) by (nonlinear_arith)
                    requires
                        bp > 0,
                        left >= 0,
                ;
                assert(remaining < bp);
            } else {
                assert(now.list(from).len() == 0);
            }
            self.lemma_take_order(now, pages, remaining, order, from - 1);
        }
    }

    /// The lower the order that the lists were asked down to, the less is
    /// left of the request.
    proof fn lemma_large_left_grows(&self, pages: int, low: int, high: int)
        requires
            0 <= pages,
            0 <= low <= high <= 11,
        ensures
            self.large_left(pages, low) <= self.large_left(pages, high),
        decreases high - low,
    {
        if low < high {
            self.lemma_large_left(pages, low);
            self.lemma_large_left_grows(pages, low + 1, high);
            lemma_block_pages(low);
            let take = self.large_take(pages, low);
            let bp = block_pages(low);
            assert(take * bp >= 0) by (nonlinear_arith)
                requires
                    take >= 0,
                    bp >= 1,
            ;
        }
    }

    /// Serves a request of more than 4 MiB: the lists are asked from order
    /// 10 down, each gives as many of its last blocks as fit into what is
    /// still missing, and the blocks are mapped one after the other from
    /// the cursor on. The frames need not lie side by side.
    pub fn allocate_large(
        &mut self,
        dir: &mut PageDirectory,
        bitmap: &mut PhysicalMemory,
        size: usize,
    ) -> (address: Option<usize>)
        requires
            old(self).inv(old(dir), old(bitmap)),
        ensures
            final(self).inv(final(dir), final(bitmap)),
            old(self).allocate_large_post(
                old(dir),
                old(bitmap),
                final(self),
                final(dir),
                final(bitmap),
                size,
                address,
            ),
    {
        if !self.paging_status {
            return None;
        }
        let pages: usize = if size % PAGE_SIZE == 0 {
            size / PAGE_SIZE
        } else {
            size / PAGE_SIZE + 1
        };
        if self.end_virtual_addr < self.next_virtual_addr || (self.end_virtual_addr
            - self.next_virtual_addr) / PAGE_SIZE < pages {
            return None;
        }
        let mut take: [usize; 11] = [0usize; 11];
        let mut remaining: usize = pages;
        let mut order: usize = MAX_ORDER + 1;
        while order > 0
            invariant
                order <= MAX_ORDER + 1,
                *self == *old(self),
                old(self).wf(),
                remaining == old(self).large_left(pages as int, order as int),
                forall|k: int|
                    order <= k <= MAX_ORDER ==> take[k] == old(self).large_take(pages as int, k),
            decreases order,
        {
            order -= 1;
            proof {
                lemma_shift_is_pages(order);
                lemma_block_pages(order as int);
                old(self).lemma_large_left(pages as int, order as int);
            }
            let block: usize = 1usize << order;
            let fit = remaining / block;
            let count = if fit <= self.free_counts[order] {
                fit
            } else {
                self.free_counts[order]
            };
            take[order] = count;
            remaining -= count * block;
        }
        if remaining != 0 {
            return None;
        }
        let start = self.next_virtual_addr;
        let mut done: usize = 0;
        proof {
            assert(bitmap@ =~= old(bitmap)@.union(old(self).lost_frames(&*self)));
            old(self).lemma_large_left(pages as int, 11);
            assert forall|k: int| 0 <= k <= MAX_ORDER implies (#[trigger] self.list(k)).len() <= old(
                self,
            ).list(k).len() && self.list(k) == old(self).list(k).take(self.list(k).len() as int) by {
                assert(self.list(k) =~= old(self).list(k).take(self.list(k).len() as int));
            }
            assert(old(self).large_progress(old(dir), old(bitmap), &*self, &*dir, &*bitmap, 0));
        }
        order = MAX_ORDER + 1;
        while order > 0
            invariant
                order <= MAX_ORDER + 1,
                old(self).inv(old(dir), old(bitmap)),
                old(self).paging(),
                old(self).cursor() + pages * 0x1000 <= old(self).window_end(),
                old(self).large_progress(old(dir), old(bitmap), &*self, &*dir, &*bitmap, done as int),
                old(self).taken_in_blocks(
                    old(dir),
                    old(bitmap),
                    &*self,
                    &*dir,
                    &*bitmap,
                    pages as int,
                    done as int,
                ),
                done == pages - old(self).large_left(pages as int, order as int),
                forall|k: int|
                    0 <= k <= MAX_ORDER ==> take[k] == old(self).large_take(pages as int, k),
                forall|k: int|
                    0 <= k <= MAX_ORDER ==> (#[trigger] self.list(k)).len() == if k >= order {
                        old(self).list(k).len() - old(self).large_take(pages as int, k)
                    } else {
                        old(self).list(k).len() as int
                    },
            decreases order,
        {
            order -= 1;
            proof {
                lemma_shift_is_pages(order);
                lemma_block_pages(order as int);
                lemma_block_size_order(order as int, 10);
                old(self).lemma_large_left(pages as int, order as int);
                old(self).lemma_large_left(pages as int, order as int + 1);
            }
            let block: usize = 1usize << order;
            let mut n: usize = 0;
            let ghost before = done;
            while n < take[order]
                invariant
                    order <= MAX_ORDER,
                    n <= take[order as int],
                    block == block_pages(order as int),
                    1 <= block <= 1024,
                    old(self).inv(old(dir), old(bitmap)),
                    old(self).paging(),
                    old(self).cursor() + pages * 0x1000 <= old(self).window_end(),
                    old(self).large_progress(
                        old(dir),
                        old(bitmap),
                        &*self,
                        &*dir,
                        &*bitmap,
                        done as int,
                    ),
                    old(self).taken_in_blocks(
                        old(dir),
                        old(bitmap),
                        &*self,
                        &*dir,
                        &*bitmap,
                        pages as int,
                        done as int,
                    ),
                    before == pages - old(self).large_left(pages as int, order as int + 1),
                    done == before + n * block,
                    take[order as int] * block <= old(self).large_left(pages as int, order as int + 1),
                    0 <= old(self).large_left(pages as int, order as int + 1) <= pages,
                    forall|k: int|
                        0 <= k <= MAX_ORDER ==> take[k] == old(self).large_take(pages as int, k),
                    forall|k: int|
                        0 <= k <= MAX_ORDER ==> (#[trigger] self.list(k)).len() == if k > order {
                            old(self).list(k).len() - old(self).large_take(pages as int, k)
                        } else if k == order {
                            old(self).list(k).len() - n
                        } else {
                            old(self).list(k).len() as int
                        },
                decreases take[order as int] - n,
            {
                proof {
                    assert((n + 1) * block <= take[order as int] * block && (n + 1) * block == n
                        * block + block) by (nonlinear_arith)
                        requires
                            n + 1 <= take[order as int],
                            block >= 1,
                    ;
                    assert(self.list(order as int).len() > 0);
                }
                let ghost now = *self;
                let ghost now_dir = *dir;
                let ghost now_bitmap = *bitmap;
                let _ = self.allocate_split(dir, bitmap, order, order);
                proof {
                    old(self).lemma_take_order(
                        &now,
                        pages as int,
                        pages - done,
                        order as int,
                        MAX_ORDER as int,
                    );
                    assert(now.block_taken(
                        &now_dir,
                        &now_bitmap,
                        &*self,
                        &*dir,
                        &*bitmap,
                        pages as int,
                        done as int,
                        done + block,
                    ));
                    assert(old(self).taken_in_blocks(
                        old(dir),
                        old(bitmap),
                        &*self,
                        &*dir,
                        &*bitmap,
                        pages as int,
                        done + block,
                    ));
                    old(self).lemma_large_step(
                        old(dir),
                        old(bitmap),
                        &now,
                        &now_dir,
                        &now_bitmap,
                        done as int,
                        &*self,
                        &*dir,
                        &*bitmap,
                        order as int,
                    );
                    assert forall|k: int| 0 <= k <= MAX_ORDER implies (#[trigger] self.list(k)).len()
                        == if k > order {
                        old(self).list(k).len() - old(self).large_take(pages as int, k)
                    } else if k == order {
                        old(self).list(k).len() - (n + 1)
                    } else {
                        old(self).list(k).len() as int
                    } by {
                        assert(now.list(k).len() == now.list(k).len());
                    }
                }
                n += 1;
                done += block;
            }
        }
        proof {
            assert forall|k: int| 0 <= k <= MAX_ORDER implies #[trigger] self.list(k) == old(
                self,
            ).list(k).take(old(self).list(k).len() - old(self).large_take(pages as int, k)) by {
                assert(self.list(k).len() == old(self).list(k).len() - old(self).large_take(
                    pages as int,
                    k,
                ));
            }
        }
        Some(start)
    }

    /// Serves a request for `layout`: a block of the smallest order that
    /// holds it, or, beyond 4 MiB, a run of blocks.
    pub fn allocate(
        &mut self,
        dir: &mut PageDirectory,
        bitmap: &mut PhysicalMemory,
        layout: Layout,
    ) -> (address: Option<usize>)
        requires
            old(self).inv(old(dir), old(bitmap)),
        ensures
            final(self).inv(final(dir), final(bitmap)),
            old(self).allocate_post(
                old(dir),
                old(bitmap),
                final(self),
                final(dir),
                final(bitmap),
                layout,
                address,
            ),
    {
        let size = if layout.size >= layout.align {
            layout.size
        } else {
            layout.align
        };
        match self.size_to_order(size) {
            Some(o) => {
                proof {
                    lemma_fit_order(size as int, o as int);
                }
                self.allocate_order(dir, bitmap, o, true)
            },
            None => {
                proof {
                    lemma_fit_order_large(size as int);
                }
                self.allocate_large(dir, bitmap, size)
            },
        }
    }

    /// Serves a kernel request of `size` bytes with one block of frames
    /// that lie side by side: from the list of its order or split from a
    /// larger block, never by the merge path. More than 4 MiB is refused.
    pub fn kallocate(
        &mut self,
        dir: &mut PageDirectory,
        bitmap: &mut PhysicalMemory,
        size: usize,
    ) -> (address: Option<usize>)
        requires
            old(self).inv(old(dir), old(bitmap)),
            old(self).privilege() == Privilege::Kernel,
        ensures
            final(self).inv(final(dir), final(bitmap)),
            old(self).kallocate_post(
                old(dir),
                old(bitmap),
                final(self),
                final(dir),
                final(bitmap),
                size,
                address,
            ),
    {
        match self.size_to_order(size) {
            Some(o) => {
                proof {
                    lemma_fit_order(size as int, o as int);
                }
                self.allocate_order(dir, bitmap, o, false)
            },
            None => {
                proof {
                    lemma_fit_order_large(size as int);
                }
                None
            },
        }
    }

    proof fn lemma_release_step(
        &self,
        dir: &PageDirectory,
        bitmap: &PhysicalMemory,
        now: &HeapAllocator,
        now_dir: &PageDirectory,
        now_bitmap: &PhysicalMemory,
        address: usize,
        done: int,
        va: usize,
        next: &HeapAllocator,
        next_dir: &PageDirectory,
        next_bitmap: &PhysicalMemory,
        order: int,
    )
        requires
            self.paging(),
            self.inv(dir, bitmap),
            now.inv(now_dir, now_bitmap),
            0 <= done,
            va == address + done * 0x1000,
            self.released_run(dir, bitmap, now, now_dir, now_bitmap, address, done),
            0 <= order <= MAX_ORDER,
            now.live_block(now_dir, now_bitmap, va, order),
            now.list(order).len() < LIST_COUNT,
            now.release_block_post(
                now_dir,
                now_bitmap,
                next,
                next_dir,
                next_bitmap,
                va,
                order,
                Ok::<(), HeapError>(()),
            ),
        ensures
            self.released_run(
                dir,
                bitmap,
                next,
                next_dir,
                next_bitmap,
                address,
                done + block_pages(order),
            ),
    {
        let base = now.block_base(now_dir, va);
        let first = address as int / 0x1000;
        let pages = block_pages(order);
        let n = now.list(order).len() as int;
        lemma_block_pages(order);
        lemma_block_pages(0);
        lemma_block_size_order(order, 10);
        lemma_aligned_lower(base as int, 0, order);
        assert(va as int / 0x1000 == first + done);
        assert(next.list(order)[n] == base);
        assert forall|k: int| 0 <= k <= MAX_ORDER implies self.list(k).len() <= (
        #[trigger] next.list(k)).len() && self.list(k) == next.list(k).take(
            self.list(k).len() as int,
        ) by {
            assert(self.list(k).len() <= now.list(k).len());
            assert(self.list(k) == now.list(k).take(self.list(k).len() as int));
            if k == order {
                assert(self.list(k) =~= next.list(k).take(self.list(k).len() as int));
            } else {
                assert(next.list(k) == now.list(k));
            }
        }
        assert forall|frame: int|
            next.owns_frame(frame) == (now.owns_frame(frame) || in_block(frame, base, order)) by {
            if next.owns_frame(frame) {
                let (k, i) = choose|k: int, i: int|
                    0 <= k <= MAX_ORDER && 0 <= i < next.list(k).len() && in_block(
                        frame,
                        #[trigger] next.list(k)[i],
                        k,
                    );
                if !(k == order && i == n) {
                    assert(next.list(k)[i] == now.list(k)[i]);
                    assert(now.owns_frame(frame));
                }
            }
            if now.owns_frame(frame) {
                let (k, i) = choose|k: int, i: int|
                    0 <= k <= MAX_ORDER && 0 <= i < now.list(k).len() && in_block(
                        frame,
                        #[trigger] now.list(k)[i],
                        k,
                    );
                assert(next.list(k)[i] == now.list(k)[i]);
            }
            if in_block(frame, base, order) {
                assert(in_block(frame, next.list(order)[n], order));
            }
        }
        // The block's frames are the frames behind its pages, in use until now.
        assert forall|frame: int| in_block(frame, base, order) implies now_bitmap@.contains(frame)
            && !self.owns_frame(frame) && Self::run_frames(dir, first, done + pages).contains(
            frame,
        ) by {
            let page = first + done + (frame - base as int / 0x1000);
            assert(now.page_live(now_dir, now_bitmap, va, page));
            assert(0 <= page < N_FRAMES);
            assert(now_dir.page_word(page) == dir.page_word(page));
            assert(0 <= page / 1024 < 1024);
            assert(now_dir.pde(page / 1024) == dir.pde(page / 1024));
            assert(dir.page_at(page, frame));
        }
        assert forall|frame: int|
            self.gained_frames(next).contains(frame) == Self::run_frames(
                dir,
                first,
                done + pages,
            ).contains(frame) by {
            if Self::run_frames(dir, first, done + pages).contains(frame) {
                let page = choose|page: int|
                    first <= page < first + done + pages && page < N_FRAMES && #[trigger] dir.page_at(
                        page,
                        frame,
                    );
                if page < first + done {
                    assert(Self::run_frames(dir, first, done).contains(frame));
                    assert(self.gained_frames(now).contains(frame));
                } else {
                    assert(now.page_live(now_dir, now_bitmap, va, page));
                    assert(0 <= page < N_FRAMES);
                    assert(now_dir.page_word(page) == dir.page_word(page));
                    assert(in_block(frame, base, order));
                }
            }
            if self.gained_frames(next).contains(frame) {
                if now.owns_frame(frame) {
                    assert(self.gained_frames(now).contains(frame));
                    assert(Self::run_frames(dir, first, done).contains(frame));
                    let page = choose|page: int|
                        first <= page < first + done && page < N_FRAMES && #[trigger] dir.page_at(
                            page,
                            frame,
                        );
                    assert(first <= page < first + done + pages);
                }
            }
        }
        assert(self.gained_frames(next) =~= Self::run_frames(dir, first, done + pages));
        assert forall|frame: int| #[trigger]
            self.gained_frames(next).contains(frame) implies bitmap@.contains(frame) by {
            if now.owns_frame(frame) {
                assert(self.gained_frames(now).contains(frame));
            } else {
                assert(in_block(frame, base, order));
                assert(now_bitmap@.contains(frame));
            }
        }
        assert(next_bitmap@ =~= bitmap@.difference(self.gained_frames(next)));
        assert forall|page: int| 0 <= page < N_FRAMES implies #[trigger] next_dir.page_word(page)
            == if first <= page < first + done + pages {
            0
        } else {
            dir.page_word(page)
        } by {
            assert(now_dir.page_word(page) == if first <= page < first + done {
                0
            } else {
                dir.page_word(page)
            });
        }
    }

    /// Takes back what was handed out under `address` for `layout`.
    pub fn deallocate(
        &mut self,
        dir: &mut PageDirectory,
        bitmap: &mut PhysicalMemory,
        address: usize,
        layout: Layout,
    ) -> (r: Result<(), HeapError>)
        requires
            old(self).inv(old(dir), old(bitmap)),
        ensures
            final(self).inv(final(dir), final(bitmap)),
            old(self).deallocate_post(
                old(dir),
                old(bitmap),
                final(self),
                final(dir),
                final(bitmap),
                address,
                layout,
                r,
            ),
    {
        let size = if layout.size >= layout.align {
            layout.size
        } else {
            layout.align
        };
        match self.size_to_order(size) {
            Some(order) => {
                proof {
                    lemma_fit_order(size as int, order as int);
                }
                return self.release_block(dir, bitmap, address, order);
            },
            None => {
                proof {
                    lemma_fit_order_large(size as int);
                }
            },
        }
        if !self.paging_status {
            return Err(HeapError::TooLarge);
        }
        let pages: usize = if size % PAGE_SIZE == 0 {
            size / PAGE_SIZE
        } else {
            size / PAGE_SIZE + 1
        };
        let mut virtual_address = address;
        let mut done: usize = 0;
        proof {
            assert(bitmap@ =~= old(bitmap)@.difference(old(self).gained_frames(&*self)));
            assert(old(self).gained_frames(&*self) =~= Self::run_frames(
                old(dir),
                address as int / 0x1000,
                0,
            ));
            assert forall|k: int| 0 <= k <= MAX_ORDER implies old(self).list(k).len() <= (
            #[trigger] self.list(k)).len() && old(self).list(k) == self.list(k).take(
                old(self).list(k).len() as int,
            ) by {
                assert(old(self).list(k) =~= self.list(k).take(old(self).list(k).len() as int));
            }
        }
        while done < pages
            invariant
                done <= pages,
                old(self).paging(),
                old(self).inv(old(dir), old(bitmap)),
                self.inv(&*dir, &*bitmap),
                virtual_address == address + done * 0x1000,
                fit_order(size as int) == 11,
                pages == Self::pages_for(size as int),
                size == if layout.size >= layout.align {
                    layout.size
                } else {
                    layout.align
                },
                old(self).released_run(
                    old(dir),
                    old(bitmap),
                    &*self,
                    &*dir,
                    &*bitmap,
                    address,
                    done as int,
                ),
                old(self).released_in_blocks(
                    old(dir),
                    old(bitmap),
                    &*self,
                    &*dir,
                    &*bitmap,
                    address,
                    pages as int,
                    done as int,
                ),
            decreases pages - done,
        {
            let remaining = pages - done;
            let mut order: usize = MAX_ORDER;
            proof {
                lemma_shift_is_pages(order);
            }
            while order > 0 && (1usize << order) > remaining
                invariant
                    order <= MAX_ORDER,
                    Self::span_order(remaining as int, 10) == Self::span_order(
                        remaining as int,
                        order as int,
                    ),
                    (1usize << order) == block_pages(order as int),
                decreases order,
            {
                order -= 1;
                proof {
                    lemma_shift_is_pages(order);
                }
            }
            let ghost now = *self;
            let ghost now_dir = *dir;
            let ghost now_bitmap = *bitmap;
            let ghost top = order as int;
            proof {
                assert(Self::span_order(remaining as int, 10) == top);
            }
            let mut released = self.release_block(dir, bitmap, virtual_address, order);
            while released.is_err() && order > 0
                invariant
                    order <= MAX_ORDER,
                    now.inv(&now_dir, &now_bitmap),
                    self.inv(&*dir, &*bitmap),
                    (1usize << order) <= remaining || order == 0,
                    now.release_order(&now_dir, &now_bitmap, virtual_address, top)
                        == now.release_order(&now_dir, &now_bitmap, virtual_address, order as int),
                    now.release_block_post(
                        &now_dir,
                        &now_bitmap,
                        &*self,
                        &*dir,
                        &*bitmap,
                        virtual_address,
                        order as int,
                        released,
                    ),
                decreases order,
            {
                order -= 1;
                proof {
                    lemma_shift_is_pages(order);
                    lemma_shift_is_pages((order + 1) as usize);
                    lemma_block_pages(order as int);
                }
                released = self.release_block(dir, bitmap, virtual_address, order);
            }
            proof {
                lemma_shift_is_pages(order);
                lemma_block_pages(order as int);
                lemma_block_size_order(order as int, 10);
            }
            match released {
                Ok(()) => {
                    proof {
                        old(self).lemma_release_step(
                            old(dir),
                            old(bitmap),
                            &now,
                            &now_dir,
                            &now_bitmap,
                            address,
                            done as int,
                            virtual_address,
                            &*self,
                            &*dir,
                            &*bitmap,
                            order as int,
                        );
                        assert(now.release_order(&now_dir, &now_bitmap, virtual_address, top) == order);
                        assert(now.block_released(
                            &now_dir,
                            &now_bitmap,
                            &*self,
                            &*dir,
                            &*bitmap,
                            address,
                            pages as int,
                            done as int,
                            done + block_pages(order as int),
                        ));
                        assert(old(self).released_in_blocks(
                            old(dir),
                            old(bitmap),
                            &*self,
                            &*dir,
                            &*bitmap,
                            address,
                            pages as int,
                            done + block_pages(order as int),
                        ));
                    }
                },
                Err(e) => {
                    proof {
                        assert(order == 0);
                        assert(virtual_address == (address + done * 0x1000) as usize);
                        assert(old(self).released_run(
                            old(dir),
                            old(bitmap),
                            &*self,
                            &*dir,
                            &*bitmap,
                            address,
                            done as int,
                        ));
                    }
                    return Err(e);
                },
            }
            virtual_address += PAGE_SIZE << order;
            done += 1usize << order;
        }
        Ok(())
    }

    /// Takes back the kernel block of `size` bytes handed out under
    /// `address`. More than 4 MiB is refused.
    pub fn kdeallocate(
        &mut self,
        dir: &mut PageDirectory,
        bitmap: &mut PhysicalMemory,
        address: usize,
        size: usize,
    ) -> (r: Result<(), HeapError>)
        requires
            old(self).inv(old(dir), old(bitmap)),
            old(self).privilege() == Privilege::Kernel,
        ensures
            final(self).inv(final(dir), final(bitmap)),
            old(self).kdeallocate_post(
                old(dir),
                old(bitmap),
                final(self),
                final(dir),
                final(bitmap),
                address,
                size,
                r,
            ),
    {
        match self.size_to_order(size) {
            Some(order) => {
                proof {
                    lemma_fit_order(size as int, order as int);
                }
                self.release_block(dir, bitmap, address, order)
            },
            None => {
                proof {
                    lemma_fit_order_large(size as int);
                }
                Err(HeapError::TooLarge)
            },
        }
    }

    /// Whether the `count` frames from `frame` on are covered by `bitmap`
    /// and free.
    pub fn frames_free(bitmap: &PhysicalMemory, frame: usize, count: usize) -> (free: bool)
        requires
            count <= 1024,
        ensures
            free == (frame + count <= N_FRAMES && forall|f: int|
                frame <= f < frame + count ==> !bitmap@.contains(f)),
    {
        if frame > N_FRAMES || N_FRAMES - frame < count {
            return false;
        }
        let mut j: usize = 0;
        while j < count
            invariant
                j <= count,
                frame + count <= N_FRAMES,
                forall|f: int| frame <= f < frame + j ==> !bitmap@.contains(f),
            decreases count - j,
        {
            if !bitmap.is_frame_free(frame + j) {
                return false;
            }
            j += 1;
        }
        true
    }

    proof fn lemma_frame_aligned(frame: int, order: int)
        requires
            0 <= order <= MAX_ORDER,
            0 <= frame,
            frame % block_pages(order) == 0,
        ensures
            (frame * 0x1000) % block_size(order) == 0,
    {
        lemma_block_pages(order);
        let pages = block_pages(order);
        assert((frame * 0x1000) % (0x1000 * pages) == 0) by (nonlinear_arith)
            requires
                pages >= 1,
                frame % pages == 0,
                0 <= frame,
        {
            let q = frame / pages;
            assert(frame == pages * q);
            assert(frame * 0x1000 == (0x1000 * pages) * q);
        }
    }

    /// Takes over the domain from `start_addr` up to `end_addr`, both as
    /// the virtual window and as the range of frames to draw from.
    pub fn init(
        &mut self,
        dir: &mut PageDirectory,
        bitmap: &mut PhysicalMemory,
        start_addr: usize,
        end_addr: usize,
        privilege: Privilege,
        paging_status: bool,
    ) -> (r: Result<(), PagingError>)
        requires
            old(dir).wf(),
            start_addr % 0x1000 == 0,
            end_addr % 0x1000 == 0,
        ensures
            final(dir).wf(),
            r is Ok ==> final(self).inv(final(dir), final(bitmap)),
            r is Ok ==> final(self).within(start_addr, end_addr),
            old(self).init_post(
                old(dir),
                old(bitmap),
                final(self),
                final(dir),
                final(bitmap),
                start_addr,
                end_addr,
                privilege,
                paging_status,
                r,
            ),
    {
        let start_frame = start_addr / PAGE_SIZE;
        let end_frame = end_addr / PAGE_SIZE;
        if paging_status {
            match dir.init_directory(bitmap, start_addr, end_addr) {
                Ok(()) => {},
                Err(e) => {
                    return Err(e);
                },
            }
            proof {
                Self::lemma_window_tables(old(dir), old(bitmap), &*dir, &*bitmap, start_addr, end_addr);
            }
            let mut page = start_frame;
            while page < end_frame
                invariant
                    start_frame <= page,
                    paging_status,
                    start_frame == start_addr / 0x1000,
                    end_frame == end_addr / 0x1000,
                    end_addr <= RECURSIVE_WINDOW,
                    dir.wf(),
                    *self == *old(self),
                    old(dir).init_directory_post(
                        old(bitmap),
                        &*dir,
                        &*bitmap,
                        start_addr,
                        end_addr,
                        Ok::<(), PagingError>(()),
                    ),
                    forall|q: int| start_frame <= q < end_frame ==> #[trigger] dir.has_table(q),
                    forall|q: int|
                        start_frame <= q < page && q < N_FRAMES ==> !word_present(
                            #[trigger] dir.page_word(q),
                        ),
                decreases end_frame - page,
            {
                proof {
                    let va = (page * 0x1000) as int;
                    assert(page as int / 1024 == dir_index(va));
                    assert(page as int % 1024 == table_index(va));
                    assert(dir.has_table(page as int));
                }
                if dir.translate(page * PAGE_SIZE).is_some() {
                    proof {
                        assert(word_present(dir.page_word(page as int)));
                        assert(page < N_FRAMES);
                        assert(start_addr as int / 0x1000 <= page < end_addr as int / 0x1000);
                        assert(!Self::window_unmapped(&*dir, start_addr, end_addr));
                    }
                    return Err(PagingError::AlreadyMapped);
                }
                page += 1;
            }
        }
        self.free_counts = [0usize; 11];
        self.privilege = privilege;
        self.next_virtual_addr = start_addr;
        self.end_virtual_addr = end_addr;
        self.paging_status = paging_status;
        let ghost empty = Seq::new(11, |k: int| Seq::<usize>::empty());
        proof {
            assert(self.lists() =~~= empty);
        }
        let mut frame = start_frame;
        while frame < end_frame
            invariant
                start_frame == start_addr / 0x1000,
                end_frame == end_addr / 0x1000,
                start_frame <= frame,
                self.wf(),
                self.backed(&*bitmap),
                self.next_virtual_addr == start_addr,
                self.end_virtual_addr == end_addr,
                self.privilege == privilege,
                self.paging_status == paging_status,
                paging_status ==> old(dir).init_directory_post(
                    old(bitmap),
                    &*dir,
                    &*bitmap,
                    start_addr,
                    end_addr,
                    Ok::<(), PagingError>(()),
                ) && Self::window_unmapped(&*dir, start_addr, end_addr) && end_addr
                    <= RECURSIVE_WINDOW && forall|q: int|
                    start_frame <= q < end_frame ==> #[trigger] dir.has_table(q),
                !paging_status ==> *dir == *old(dir) && *bitmap == *old(bitmap),
                forall|k: int, i: int|
                    0 <= k <= MAX_ORDER && 0 <= i < self.list(k).len() ==> (#[trigger] self.list(k)[i])
                        + block_size(k) <= frame * 0x1000,
                self.within(start_addr, end_addr),
                start_addr % 0x1000 == 0,
                end_addr % 0x1000 == 0,
                Self::swept(&*bitmap, self.lists(), frame as int, end_frame as int) == Self::swept(
                    &*bitmap,
                    empty,
                    start_frame as int,
                    end_frame as int,
                ),
            decreases end_frame - frame,
        {
            let mut order: usize = MAX_ORDER + 1;
            let mut chosen: Option<usize> = None;
            while order > 0 && chosen.is_none()
                invariant
                    order <= MAX_ORDER + 1,
                    frame < end_frame,
                    self.wf(),
                    match chosen {
                        Some(k) => k == order && k <= MAX_ORDER && Self::sweep_fits(
                            &*bitmap,
                            self.lists(),
                            frame as int,
                            end_frame as int,
                            k as int,
                        ),
                        None => true,
                    },
                    Self::sweep_order(&*bitmap, self.lists(), frame as int, end_frame as int, 10) == match chosen {
                        Some(k) => k as int,
                        None => Self::sweep_order(
                            &*bitmap,
                            self.lists(),
                            frame as int,
                            end_frame as int,
                            order - 1,
                        ),
                    },
                decreases order, chosen.is_none() as int,
            {
                order -= 1;
                proof {
                    lemma_shift_is_pages(order);
                    lemma_block_pages(order as int);
                    assert(self.lists()[order as int] == self.list(order as int));
                }
                let block: usize = 1usize << order;
                if frame % block == 0 && block <= end_frame - frame && self.free_counts[order]
                    < LIST_COUNT_INIT_MAX && Self::frames_free(bitmap, frame, block) {
                    chosen = Some(order);
                }
            }
            let ghost before = *self;
            match chosen {
                Some(k) => {
                    proof {
                        lemma_shift_is_pages(k);
                        lemma_block_pages(k as int);
                        lemma_block_size_order(k as int, 10);
                        Self::lemma_frame_aligned(frame as int, k as int);
                        assert(self.lists()[k as int] == self.list(k as int));
                    }
                    let count = self.free_counts[k];
                    let base = frame * PAGE_SIZE;
                    self.free_lists[k][count] = base;
                    self.free_counts[k] = count + 1;
                    proof {
                        assert(self.list(k as int) =~= before.list(k as int).push(base));
                        assert forall|m: int| 0 <= m <= MAX_ORDER && m != k implies self.list(m)
                            == before.list(m) by {
                            assert(self.list(m) =~= before.list(m));
                        }
                        assert(self.lists() =~= before.lists().update(
                            k as int,
                            before.lists()[k as int].push(base),
                        ));
                        before.lemma_pushed(&*self, &*bitmap, k as int, base);
                    }
                    frame += 1usize << k;
                },
                None => {
                    frame += 1;
                },
            }
        }
        proof {
            if paging_status {
                assert forall|page: int|
                    self.cursor() as int / 0x1000 <= page < self.window_end() as int
                        / 0x1000 implies #[trigger] dir.mappable(page) by {
                    assert(!word_present(dir.page_word(page)));
                    assert(dir.has_table(page));
                }
            }
        }
        Ok(())
    }

    /// Once `init_directory` has done its work, every page of the window
    /// has its page table.
    proof fn lemma_window_tables(
        dir: &PageDirectory,
        bitmap: &PhysicalMemory,
        post_dir: &PageDirectory,
        post_bitmap: &PhysicalMemory,
        start: usize,
        end: usize,
    )
        requires
            dir.init_directory_post(
                bitmap,
                post_dir,
                post_bitmap,
                start,
                end,
                Ok::<(), PagingError>(()),
            ),
        ensures
            end <= RECURSIVE_WINDOW,
            forall|q: int|
                start as int / 0x1000 <= q < end as int / 0x1000 ==> #[trigger] post_dir.has_table(q),
    {
        assert forall|q: int|
            start as int / 0x1000 <= q < end as int / 0x1000 implies #[trigger] post_dir.has_table(
            q,
        ) by {
            let low = start as int / 0x40_0000;
            let high = (end as int + 0x3F_FFFF) / 0x40_0000;
            let i = q / 1024;
            assert(low <= i < high);
            assert(0 <= i < 1024);
            lemma_word_frame(post_dir.pde(i));
        }
    }

    /// A block that lies behind every block on the lists and whose frames
    /// are free keeps the lists well formed when it joins them.
    proof fn lemma_pushed(&self, post: &HeapAllocator, bitmap: &PhysicalMemory, order: int, base: usize)
        requires
            self.wf(),
            self.backed(bitmap),
            0 <= order <= MAX_ORDER,
            self.list(order).len() < LIST_COUNT,
            post.list(order) == self.list(order).push(base),
            forall|k: int| 0 <= k <= MAX_ORDER && k != order ==> post.list(k) == self.list(k),
            post.cursor() == self.cursor(),
            base as int % block_size(order) == 0,
            base + block_size(order) <= 0x1_0000_0000,
            forall|k: int, i: int|
                0 <= k <= MAX_ORDER && 0 <= i < self.list(k).len() ==> (#[trigger] self.list(k)[i])
                    + block_size(k) <= base,
            forall|frame: int| in_block(frame, base, order) ==> !bitmap@.contains(frame),
        ensures
            post.wf(),
            post.backed(bitmap),
            forall|k: int, i: int|
                0 <= k <= MAX_ORDER && 0 <= i < post.list(k).len() ==> (#[trigger] post.list(k)[i])
                    + block_size(k) <= base + block_size(order),
            forall|start: usize, end: usize|
                self.within(start, end) && start <= base && base + block_size(order) <= end
                    ==> #[trigger] post.within(start, end),
    {
        let n = self.list(order).len() as int;
        lemma_block_size_order(order, 10);
        assert forall|k: int| 0 <= k <= MAX_ORDER implies (#[trigger] post.list(k)).len()
            <= LIST_COUNT by {
            assert(self.list(k).len() <= LIST_COUNT);
            if k != order {
                assert(post.list(k) == self.list(k));
            }
        }
        assert forall|k: int, i: int| 0 <= k <= MAX_ORDER && 0 <= i < post.list(k).len() implies {
            let b = #[trigger] post.list(k)[i];
            &&& b as int % block_size(k) == 0
            &&& b + block_size(k) <= 0x1_0000_0000
            &&& b + block_size(k) <= base + block_size(order)
            &&& (k == order && i == n && b == base) || (i < self.list(k).len() && b == self.list(
                k,
            )[i])
        } by {
            if k != order {
                assert(post.list(k) == self.list(k));
            }
            if !(k == order && i == n) {
                let c = self.list(k)[i];
            }
        }
        assert forall|k1: int, i1: int, k2: int, i2: int|
            0 <= k1 <= MAX_ORDER && 0 <= i1 < post.list(k1).len() && 0 <= k2 <= MAX_ORDER && 0 <= i2
                < post.list(k2).len() && (k1 != k2 || i1 != i2) implies {
            ||| (#[trigger] post.list(k1)[i1]) + block_size(k1) <= (#[trigger] post.list(k2)[i2])
            ||| post.list(k2)[i2] + block_size(k2) <= post.list(k1)[i1]
        } by {
            let new1 = k1 == order && i1 == n;
            let new2 = k2 == order && i2 == n;
            if !new1 {
                assert(post.list(k1)[i1] == self.list(k1)[i1]);
            }
            if !new2 {
                assert(post.list(k2)[i2] == self.list(k2)[i2]);
            }
        }
        assert forall|frame: int| post.owns_frame(frame) implies !bitmap@.contains(frame) by {
            let (k, i) = choose|k: int, i: int|
                0 <= k <= MAX_ORDER && 0 <= i < post.list(k).len() && in_block(
                    frame,
                    #[trigger] post.list(k)[i],
                    k,
                );
            if k == order && i == n {
            } else {
                assert(post.list(k)[i] == self.list(k)[i]);
                assert(self.owns_frame(frame));
            }
        }
    }

    /// A split, wherever it happens, keeps every base on a free list
    /// aligned to the size of its order, and the block that it puts on
    /// the list of `order` is the buddy of the piece handed out: the base
    /// of the block that was split, with the bit of that order flipped.
    pub proof fn law_split_pushes_buddies(
        &self,
        post: &HeapAllocator,
        higher: usize,
        target: usize,
        order: usize,
    )
        requires
            self.wf(),
            target <= order < higher <= MAX_ORDER,
            self.list(higher as int).len() > 0,
            self.split_from(post, higher as int, target as int),
            post.cursor() % 0x1000 == 0,
        ensures
            forall|k: int, i: int|
                0 <= k <= MAX_ORDER && 0 <= i < post.list(k).len() ==> (#[trigger] post.list(k)[i])
                    as int % block_size(k) == 0,
            post.list(order as int) == if self.list(order as int).len() < LIST_COUNT {
                self.list(order as int).push(
                    self.list(higher as int).last() ^ (1usize << ((order + 12) as usize)),
                )
            } else {
                self.list(order as int)
            },
    {
        self.lemma_split(post, higher as int, target as int);
        let base = self.list(higher as int).last();
        assert(base == self.list(higher as int)[self.list(higher as int).len() - 1]);
        lemma_block_size_order(higher as int, 10);
        lemma_aligned_lower(base as int, order + 1, higher as int);
        lemma_buddy(base, order);
        lemma_block_size_order(order as int, 10);
        assert(post.list(order as int) == post.list(order as int));
    }

    /// A split with room on every list it feeds cuts the block into the
    /// piece handed out and one buddy of each order from `target` up to
    /// `higher`, which together cover the block exactly; the lists stay
    /// apart, and the piece handed out is on none of them.
    pub proof fn law_split_tiles_the_block(
        &self,
        post: &HeapAllocator,
        higher: int,
        target: int,
        frame: int,
    )
        requires
            self.wf(),
            0 <= target <= higher <= MAX_ORDER,
            self.list(higher).len() > 0,
            self.split_from(post, higher, target),
            post.cursor() % 0x1000 == 0,
            forall|o: int| target <= o < higher ==> self.list(o).len() < LIST_COUNT,
        ensures
            post.wf(),
            forall|k: int, i: int|
                0 <= k <= MAX_ORDER && 0 <= i < post.list(k).len() ==> !in_block(
                    #[trigger] post.list(k)[i] as int / 0x1000,
                    self.list(higher).last(),
                    target,
                ),
            forall|o: int|
                target <= o < higher ==> (#[trigger] post.list(o)).last() == self.list(higher).last()
                    + block_size(o),
            in_block(frame, self.list(higher).last(), higher) <==> in_pieces(
                frame,
                self.list(higher).last(),
                target,
                higher,
            ),
    {
        self.lemma_split(post, higher, target);
        let base = self.list(higher).last();
        assert(base == self.list(higher)[self.list(higher).len() - 1]);
        lemma_block_size_order(higher, 10);
        assert forall|k: int, i: int| 0 <= k <= MAX_ORDER && 0 <= i < post.list(k).len() implies !in_block(
            #[trigger] post.list(k)[i] as int / 0x1000,
            base,
            target,
        ) by {
            let b = post.list(k)[i];
            lemma_block_size_order(k, 10);
            lemma_block_pages(0);
            lemma_aligned_lower(b as int, 0, k);
            assert(in_block(b as int / 0x1000, b, k));
            assert(post.owns_frame(b as int / 0x1000));
        }
        assert(base + block_size(higher) <= 0x1_0000_0000);
        assert forall|o: int| target <= o < higher implies (#[trigger] post.list(o)).last() == base
            + block_size(o) by {
            lemma_block_size_order(o, higher);
            let pushed = self.list(o).push((base + block_size(o)) as usize);
            assert(post.list(o) == pushed);
            assert(pushed[pushed.len() - 1] == (base + block_size(o)) as usize);
        }
        lemma_pieces(frame, base, target, higher);
    }

    /// Every base on a free list is aligned to the size of its order.
    pub proof fn law_free_blocks_are_aligned(&self, order: int, index: int)
        requires
            self.wf(),
            0 <= order <= MAX_ORDER,
            0 <= index < self.list(order).len(),
        ensures
            self.list(order)[index] as int % block_size(order) == 0,
            self.list(order)[index] as int % 0x1000 == 0,
    {
        lemma_block_pages(0);
        lemma_aligned_lower(self.list(order)[index] as int, 0, order);
    }

    /// No address stands on two free lists, nor twice on one, and no two
    /// free blocks share a frame.
    pub proof fn law_free_lists_are_disjoint(&self, k1: int, i1: int, k2: int, i2: int)
        requires
            self.wf(),
            0 <= k1 <= MAX_ORDER,
            0 <= i1 < self.list(k1).len(),
            0 <= k2 <= MAX_ORDER,
            0 <= i2 < self.list(k2).len(),
            k1 != k2 || i1 != i2,
        ensures
            self.list(k1)[i1] != self.list(k2)[i2],
            forall|frame: int|
                !(in_block(frame, self.list(k1)[i1], k1) && in_block(frame, self.list(k2)[i2], k2)),
    {
        lemma_block_size_order(k1, 10);
        lemma_block_size_order(k2, 10);
        let a = self.list(k1)[i1];
        let b = self.list(k2)[i2];
        assert(a + block_size(k1) <= b || b + block_size(k2) <= a);
    }

    /// With paging, every byte of a block that `allocate_order` handed out
    /// translates to the byte as far into the block's frames, and the
    /// frame of that byte is in use.
    pub proof fn law_block_is_mapped(
        &self,
        dir: &PageDirectory,
        bitmap: &PhysicalMemory,
        post: &HeapAllocator,
        post_dir: &PageDirectory,
        post_bitmap: &PhysicalMemory,
        order: int,
        fallback: bool,
        address: usize,
        offset: int,
    )
        requires
            self.inv(dir, bitmap),
            self.paging(),
            0 <= order <= MAX_ORDER,
            self.allocate_order_post(
                dir,
                bitmap,
                post,
                post_dir,
                post_bitmap,
                order,
                fallback,
                Some(address),
            ),
            0 <= offset < block_size(order),
        ensures
            post_dir.translate_spec(address + offset) == Some(
                self.list(self.first_stocked(order)).last() + offset,
            ),
            post_bitmap@.contains(
                (self.list(self.first_stocked(order)).last() + offset) / 0x1000,
            ),
    {
        let j = self.first_stocked(order);
        self.lemma_first_stocked(order);
        let last = self.list(j).len() - 1;
        let base = self.list(j)[last];
        let flags = domain_flags(self.privilege());
        lemma_block_size_order(order, j);
        lemma_block_size_order(j, 10);
        lemma_block_pages(order);
        lemma_block_pages(0);
        lemma_aligned_lower(base as int, 0, j);
        let first = self.cursor() as int / 0x1000;
        let n = offset / 0x1000;
        let page = first + n;
        let va = address + offset;
        assert(va / 0x1000 == page);
        assert(page / 1024 == dir_index(va) && page % 1024 == table_index(va));
        assert(dir.mappable(page));
        assert(0 <= page < N_FRAMES);
        let pa = (base + n * 0x1000) as usize;
        assert(post_dir.page_word(page) == pa | flags);
        assert(flags <= 0xFFF);
        lemma_entry_word(pa, flags);
        assert(post_dir.pde(page / 1024) == dir.pde(page / 1024));
        assert(va % 0x1000 == offset % 0x1000);
    }

    /// With paging, every byte of what `allocate` handed out translates
    /// to an address whose frame is in use.
    pub proof fn law_allocation_is_backed(
        &self,
        dir: &PageDirectory,
        bitmap: &PhysicalMemory,
        post: &HeapAllocator,
        post_dir: &PageDirectory,
        post_bitmap: &PhysicalMemory,
        layout: Layout,
        address: usize,
        offset: int,
    )
        requires
            self.inv(dir, bitmap),
            self.paging(),
            self.allocate_post(dir, bitmap, post, post_dir, post_bitmap, layout, Some(address)),
            0 <= offset,
            offset < layout.size || offset < layout.align,
        ensures
            post_dir.translate_spec(address + offset) matches Some(physical)
                && post_bitmap@.contains(physical / 0x1000),
    {
        let size = if layout.size >= layout.align {
            layout.size
        } else {
            layout.align
        };
        let k = fit_order(size as int);
        if k <= MAX_ORDER {
            lemma_fit_order_holds(size as int);
            self.law_block_is_mapped(
                dir,
                bitmap,
                post,
                post_dir,
                post_bitmap,
                k,
                true,
                address,
                offset,
            );
        } else {
            self.lemma_run_is_backed(dir, bitmap, post, post_dir, post_bitmap, size, address, offset);
        }
    }

    /// Every byte of a run of pages that a large allocation handed out
    /// translates to an address whose frame is in use.
    proof fn lemma_run_is_backed(
        &self,
        dir: &PageDirectory,
        bitmap: &PhysicalMemory,
        post: &HeapAllocator,
        post_dir: &PageDirectory,
        post_bitmap: &PhysicalMemory,
        size: usize,
        address: usize,
        offset: int,
    )
        requires
            self.inv(dir, bitmap),
            self.paging(),
            self.allocate_large_post(dir, bitmap, post, post_dir, post_bitmap, size, Some(address)),
            0 <= offset < size,
        ensures
            post_dir.translate_spec(address + offset) matches Some(physical)
                && post_bitmap@.contains(physical / 0x1000),
    {
        let pages = Self::pages_for(size as int);
        let first = self.cursor() as int / 0x1000;
        let flags = domain_flags(self.privilege());
        let va = address + offset;
        let page = va / 0x1000;
        assert(address == self.cursor());
        assert(address % 0x1000 == 0);
        assert(first * 0x1000 == address);
        assert(first <= page < first + pages);
        assert(page / 1024 == dir_index(va) && page % 1024 == table_index(va));
        assert(dir.mappable(page));
        assert(0 <= page / 1024 < 1024);
        assert(post_dir.pde(page / 1024) == dir.pde(page / 1024));
        let word = post_dir.page_word(page);
        assert(self.lost_frames(post).contains(word_frame(word) as int / 0x1000));
        lemma_word_frame(word);
    }

    /// What was mapped behind the cursor, with its frame in use, stays so
    /// through every later allocation.
    pub proof fn law_mapping_survives_allocate(
        &self,
        dir: &PageDirectory,
        bitmap: &PhysicalMemory,
        post: &HeapAllocator,
        post_dir: &PageDirectory,
        post_bitmap: &PhysicalMemory,
        layout: Layout,
        r: Option<usize>,
        page: int,
        frame: int,
    )
        requires
            self.inv(dir, bitmap),
            0 <= page < self.cursor() as int / 0x1000,
            page < N_FRAMES,
            dir.page_at(page, frame),
            bitmap@.contains(frame),
            self.allocate_post(dir, bitmap, post, post_dir, post_bitmap, layout, r),
        ensures
            post_dir.page_at(page, frame),
            post_bitmap@.contains(frame),
    {
        assert(0 <= page / 1024 < 1024);
        assert(page < N_FRAMES);
        let size = if layout.size >= layout.align {
            layout.size
        } else {
            layout.align
        };
        let k = fit_order(size as int);
        if k <= MAX_ORDER {
            lemma_fit_order_holds(size as int);
            let j = self.first_stocked(k);
            let o = self.merge_source(k, k - 1);
            if j <= MAX_ORDER {
                assert(post_dir.page_word(page) == dir.page_word(page));
            } else if o >= 0 {
                assert(post_dir.page_word(page) == dir.page_word(page));
            }
        } else {
            assert(post_dir.page_word(page) == dir.page_word(page));
        }
    }

    /// With paging, what is mapped outside a block that goes back, with
    /// its frame in use and mapped by no second page, stays so through
    /// the deallocation.
    pub proof fn law_mapping_survives_deallocate(
        &self,
        dir: &PageDirectory,
        bitmap: &PhysicalMemory,
        post: &HeapAllocator,
        post_dir: &PageDirectory,
        post_bitmap: &PhysicalMemory,
        address: usize,
        layout: Layout,
        r: Result<(), HeapError>,
        page: int,
        frame: int,
    )
        requires
            self.inv(dir, bitmap),
            self.paging(),
            dir.exclusive(),
            0 <= page < N_FRAMES,
            dir.page_at(page, frame),
            bitmap@.contains(frame),
            self.deallocate_post(dir, bitmap, post, post_dir, post_bitmap, address, layout, r),
            page < address as int / 0x1000 || page >= address as int / 0x1000 + Self::pages_for(
                if layout.size >= layout.align {
                    layout.size as int
                } else {
                    layout.align as int
                },
            ) && page >= address as int / 0x1000 + block_pages(
                fit_order(
                    if layout.size >= layout.align {
                        layout.size as int
                    } else {
                        layout.align as int
                    },
                ),
            ),
        ensures
            post_dir.page_at(page, frame),
            post_bitmap@.contains(frame),
    {
        assert(0 <= page / 1024 < 1024);
        let size = if layout.size >= layout.align {
            layout.size
        } else {
            layout.align
        };
        let k = fit_order(size as int);
        let first = address as int / 0x1000;
        if k <= MAX_ORDER {
            lemma_fit_order_holds(size as int);
            if r is Ok {
                let base = self.block_base(dir, address);
                lemma_block_pages(k);
                lemma_block_pages(0);
                lemma_aligned_lower(base as int, 0, k);
                assert(post_dir.page_word(page) == dir.page_word(page));
                if base as int / 0x1000 <= frame < base as int / 0x1000 + block_pages(k) {
                    let q = first + (frame - base as int / 0x1000);
                    assert(self.page_live(dir, bitmap, address, q));
                    assert(dir.page_at(q, frame));
                    assert(0 <= q < N_FRAMES);
                }
            }
        } else {
            let pages = Self::pages_for(size as int);
            let done = if r is Ok {
                pages
            } else {
                choose|done: int|
                    0 <= done < pages && #[trigger] self.released_run(
                        dir,
                        bitmap,
                        post,
                        post_dir,
                        post_bitmap,
                        address,
                        done,
                    )
            };
            assert(self.released_run(dir, bitmap, post, post_dir, post_bitmap, address, done));
            assert(post_dir.page_word(page) == dir.page_word(page));
            if Self::run_frames(dir, first, done).contains(frame) {
                let q = choose|q: int|
                    first <= q < first + done && q < N_FRAMES && #[trigger] dir.page_at(q, frame);
                assert(q != page);
            }
        }
    }

    /// A block that `allocate` took straight off the list of its order
    /// goes back with `deallocate`, and the lists are as long as they
    /// were.
    pub proof fn law_allocate_then_deallocate_restores_counts(
        &self,
        dir: &PageDirectory,
        bitmap: &PhysicalMemory,
        mid: &HeapAllocator,
        mid_dir: &PageDirectory,
        mid_bitmap: &PhysicalMemory,
        post: &HeapAllocator,
        post_dir: &PageDirectory,
        post_bitmap: &PhysicalMemory,
        layout: Layout,
        address: usize,
        r: Result<(), HeapError>,
    )
        requires
            self.inv(dir, bitmap),
            fit_order(
                if layout.size >= layout.align {
                    layout.size as int
                } else {
                    layout.align as int
                },
            ) <= MAX_ORDER,
            self.list(
                fit_order(
                    if layout.size >= layout.align {
                        layout.size as int
                    } else {
                        layout.align as int
                    },
                ),
            ).len() > 0,
            self.allocate_post(dir, bitmap, mid, mid_dir, mid_bitmap, layout, Some(address)),
            mid.deallocate_post(mid_dir, mid_bitmap, post, post_dir, post_bitmap, address, layout, r),
        ensures
            r is Ok,
            forall|k: int| 0 <= k <= MAX_ORDER ==> post.list(k).len() == self.list(k).len(),
            forall|k: int| 0 <= k <= MAX_ORDER ==> post.list(k) == self.list(k),
            post_bitmap@ == bitmap@,
    {
        let size = if layout.size >= layout.align {
            layout.size
        } else {
            layout.align
        };
        let k = fit_order(size as int);
        lemma_fit_order_holds(size as int);
        let last = self.list(k).len() - 1;
        let base = self.list(k)[last];
        let flags = domain_flags(self.privilege());
        let pages = block_pages(k);
        let first = address as int / 0x1000;
        lemma_block_pages(k);
        lemma_block_pages(0);
        lemma_block_size_order(k, 10);
        lemma_aligned_lower(base as int, 0, k);
        assert(self.first_stocked(k) == k);
        assert(mid.list(k) == self.list(k).drop_last());
        assert(flags <= 0xFFF);
        if self.paging() {
            assert(address == self.cursor());
            assert forall|page: int| first <= page < first + pages implies mid_dir.page_word(page)
                == ((base + (page - first) * 0x1000) as usize) | flags && word_present(
                mid_dir.pde(page / 1024),
            ) by {
                assert(0 <= page < N_FRAMES);
                assert(dir.mappable(page));
                assert(0 <= page / 1024 < 1024);
                assert(mid_dir.pde(page / 1024) == dir.pde(page / 1024));
            }
            lemma_entry_word(base, flags);
            assert(mid.block_base(mid_dir, address) == base) by {
                assert(mid_dir.page_word(first) == ((base + 0 * 0x1000) as usize) | flags);
            }
        }
        assert(mid.block_base(mid_dir, address) == base);
        assert forall|page: int| first <= page < first + pages implies #[trigger] mid.page_live(
            mid_dir,
            mid_bitmap,
            address,
            page,
        ) by {
            let pa = (base + (page - first) * 0x1000) as usize;
            lemma_entry_word(pa, flags);
            assert(mid_bitmap@.contains(base as int / 0x1000 + (page - first)));
            if self.paging() {
                assert(0 <= page < N_FRAMES);
                assert(dir.mappable(page));
                assert(0 <= page / 1024 < 1024);
                assert(mid_dir.pde(page / 1024) == dir.pde(page / 1024));
                assert(mid_dir.page_word(page) == pa | flags);
                assert(word_frame(mid_dir.page_word(page)) == pa);
                assert(pa as int == (base as int / 0x1000 + (page - first)) * 0x1000);
            }
        }
        assert(mid.live_block(mid_dir, mid_bitmap, address, k));
        assert(post.list(k) =~= self.list(k));
        assert forall|m: int| 0 <= m <= MAX_ORDER implies post.list(m) == self.list(m) by {
            if m != k {
                assert(mid.list(m) == self.list(m));
            }
        }
        assert(post_bitmap@ =~= bitmap@) by {
            assert forall|frame: int|
                base as int / 0x1000 <= frame < base as int / 0x1000 + pages implies !bitmap@.contains(
                frame,
            ) by {
                assert(in_block(frame, self.list(k)[last], k));
                assert(self.owns_frame(frame));
            }
        }
    }

    /// Whether two heaps keep apart: no frame is held free by both, and
    /// what is left of their windows does not overlap.
    pub open spec fn apart(&self, other: &HeapAllocator) -> bool {
        &&& forall|frame: int| !(#[trigger] self.owns_frame(frame) && other.owns_frame(frame))
        &&& self.window_end() <= other.cursor() || other.window_end() <= self.cursor()
            || self.cursor() >= self.window_end() || other.cursor() >= other.window_end()
    }

    /// What every allocation does, whichever way it took: the free lists
    /// only lose frames; the bitmap only gains frames, and only frames
    /// that the lists lost; and with paging the pages from the old cursor
    /// to the new one, and no others, are spread over the frames gained.
    pub open spec fn allocation_effect(
        &self,
        dir: &PageDirectory,
        bitmap: &PhysicalMemory,
        post: &HeapAllocator,
        post_dir: &PageDirectory,
        post_bitmap: &PhysicalMemory,
    ) -> bool {
        &&& forall|frame: int| #[trigger] post.owns_frame(frame) ==> self.owns_frame(frame)
        &&& forall|frame: int| bitmap@.contains(frame) ==> post_bitmap@.contains(frame)
        &&& forall|frame: int|
            post_bitmap@.contains(frame) && !bitmap@.contains(frame) ==> #[trigger] self.lost_frames(
                post,
            ).contains(frame)
        &&& self.cursor() <= post.cursor() <= self.window_end() || post.cursor() == self.cursor()
        &&& post.window_end() == self.window_end()
        &&& post.paging() == self.paging()
        &&& post.privilege() == self.privilege()
        &&& if self.paging() {
            Self::run_spread(
                dir,
                post_dir,
                self.cursor() as int / 0x1000,
                post.cursor() as int / 0x1000 - self.cursor() as int / 0x1000,
                domain_flags(self.privilege()),
                post_bitmap@.difference(bitmap@),
            )
        } else {
            *post_dir == *dir
        }
    }

    /// The effect of handing out one block, in the terms of
    /// `allocation_effect`.
    proof fn lemma_block_effect(
        &self,
        dir: &PageDirectory,
        bitmap: &PhysicalMemory,
        post: &HeapAllocator,
        post_dir: &PageDirectory,
        post_bitmap: &PhysicalMemory,
        higher: int,
        target: int,
    )
        requires
            self.inv(dir, bitmap),
            0 <= target <= higher <= MAX_ORDER,
            self.list(higher).len() > 0,
            self.cursor() + block_size(target) <= self.window_end(),
            self.split_from(post, higher, target),
            self.handed_out(dir, bitmap, post, post_dir, post_bitmap, self.list(higher).last(), target),
        ensures
            self.allocation_effect(dir, bitmap, post, post_dir, post_bitmap),
    {
        let base = self.list(higher).last();
        let last = self.list(higher).len() - 1;
        let first = self.cursor() as int / 0x1000;
        let pages = block_pages(target);
        let flags = domain_flags(self.privilege());
        self.lemma_split(post, higher, target);
        lemma_block_pages(target);
        lemma_block_pages(0);
        lemma_block_size_order(target, higher);
        lemma_block_size_order(higher, 10);
        lemma_aligned_lower(base as int, 0, higher);
        assert(base == self.list(higher)[last]);
        assert(post.cursor() as int / 0x1000 - first == pages);
        assert forall|frame: int|
            self.lost_frames(post).contains(frame) <==> in_block(frame, base, higher) && !post.owns_frame(
                frame,
            ) by {
            if in_block(frame, base, higher) {
                assert(in_block(frame, self.list(higher)[last], higher));
                assert(self.owns_frame(frame));
            }
            if self.owns_frame(frame) && !in_block(frame, base, higher) {
                assert(post.owns_frame(frame));
            }
        }
        // The frames marked are frames lost; the buddies that found no room on
        // a full list are lost too, but stay free.
        assert forall|frame: int| in_block(frame, base, target) implies self.lost_frames(
            post,
        ).contains(frame) by {
            assert(in_block(frame, base, higher));
            if post.owns_frame(frame) {
                assert(!in_block(frame, base, target));
            }
        }
        if self.paging() {
            assert(flags <= 0xFFF);
            assert forall|page: int| first <= page < first + pages implies {
                let word = #[trigger] post_dir.page_word(page);
                &&& post_bitmap@.difference(bitmap@).contains(word_frame(word) as int / 0x1000)
                &&& word == word_frame(word) | flags
            } by {
                assert(0 <= page < N_FRAMES);
                let address = (base + (page - first) * 0x1000) as usize;
                assert(post_dir.page_word(page) == address | flags);
                lemma_entry_word(address, flags);
                assert(in_block(address as int / 0x1000, base, target));
                assert(self.owns_frame(address as int / 0x1000));
                lemma_entry_word(address, flags);
            }
            assert forall|p: int, q: int|
                first <= p < first + pages && first <= q < first + pages && p != q implies word_frame(
                #[trigger] post_dir.page_word(p),
            ) != word_frame(#[trigger] post_dir.page_word(q)) by {
                let ap = (base + (p - first) * 0x1000) as usize;
                let aq = (base + (q - first) * 0x1000) as usize;
                lemma_entry_word(ap, flags);
                lemma_entry_word(aq, flags);
                assert(0 <= p < N_FRAMES && 0 <= q < N_FRAMES);
                assert(post_dir.page_word(p) == ap | flags);
                assert(post_dir.page_word(q) == aq | flags);
            }
        }
    }

    /// A state is its own effect: nothing was handed out.
    proof fn lemma_no_effect(&self, dir: &PageDirectory, bitmap: &PhysicalMemory)
        requires
            self.inv(dir, bitmap),
        ensures
            self.allocation_effect(dir, bitmap, self, dir, bitmap),
    {
        assert(bitmap@.difference(bitmap@) =~= Set::<int>::empty());
    }

    /// Every allocation has the effect that `allocation_effect` states.
    pub proof fn law_allocation_effect(
        &self,
        dir: &PageDirectory,
        bitmap: &PhysicalMemory,
        post: &HeapAllocator,
        post_dir: &PageDirectory,
        post_bitmap: &PhysicalMemory,
        layout: Layout,
        r: Option<usize>,
    )
        requires
            self.inv(dir, bitmap),
            self.allocate_post(dir, bitmap, post, post_dir, post_bitmap, layout, r),
        ensures
            self.allocation_effect(dir, bitmap, post, post_dir, post_bitmap),
    {
        let size = if layout.size >= layout.align {
            layout.size
        } else {
            layout.align
        };
        let k = fit_order(size as int);
        lemma_fit_order_holds(size as int);
        self.lemma_no_effect(dir, bitmap);
        if k <= MAX_ORDER {
            self.lemma_order_effect(dir, bitmap, post, post_dir, post_bitmap, k, true, r);
        } else {
            let pages = Self::pages_for(size as int);
            if self.paging() && self.cursor() + pages * 0x1000 <= self.window_end() && self.large_left(
                pages,
                0,
            ) == 0 {
                assert forall|frame: int| #[trigger] post.owns_frame(frame) implies self.owns_frame(
                    frame,
                ) by {
                    let (m, i) = choose|m: int, i: int|
                        0 <= m <= MAX_ORDER && 0 <= i < post.list(m).len() && in_block(
                            frame,
                            #[trigger] post.list(m)[i],
                            m,
                        );
                    self.lemma_large_left(pages, m);
                    assert(post.list(m) == self.list(m).take(
                        self.list(m).len() - self.large_take(pages, m),
                    ));
                    assert(self.list(m)[i] == post.list(m)[i]);
                }
                assert(post_bitmap@.difference(bitmap@) =~= self.lost_frames(post)) by {
                    assert forall|frame: int| self.lost_frames(post).contains(
                        frame,
                    ) implies !bitmap@.contains(frame) by {
                        assert(self.owns_frame(frame));
                    }
                }
                assert(post.cursor() as int / 0x1000 - self.cursor() as int / 0x1000 == pages);
            }
        }
    }

    /// An allocation of one block has the effect that `allocation_effect`
    /// states.
    pub proof fn lemma_order_effect(
        &self,
        dir: &PageDirectory,
        bitmap: &PhysicalMemory,
        post: &HeapAllocator,
        post_dir: &PageDirectory,
        post_bitmap: &PhysicalMemory,
        k: int,
        fallback: bool,
        r: Option<usize>,
    )
        requires
            self.inv(dir, bitmap),
            0 <= k <= MAX_ORDER,
            self.allocate_order_post(dir, bitmap, post, post_dir, post_bitmap, k, fallback, r),
        ensures
            self.allocation_effect(dir, bitmap, post, post_dir, post_bitmap),
    {
        self.lemma_no_effect(dir, bitmap);
        let j = self.first_stocked(k);
        let o = self.merge_source(k, k - 1);
        self.lemma_first_stocked(k);
        if self.cursor() + block_size(k) <= self.window_end() {
            if j <= MAX_ORDER {
                self.lemma_block_effect(dir, bitmap, post, post_dir, post_bitmap, j, k);
            } else if fallback && o >= 0 {
                self.lemma_merge_source(k, k - 1);
                lemma_block_size_order(o, k);
                self.lemma_block_effect(dir, bitmap, post, post_dir, post_bitmap, o, o);
            }
        }
    }

    proof fn lemma_merge_source(&self, target: int, from: int)
        requires
            0 <= target <= MAX_ORDER,
            -1 <= from < target,
        ensures
            -1 <= self.merge_source(target, from) <= from,
            self.merge_source(target, from) >= 0 ==> self.list(self.merge_source(target, from)).len()
                > 0,
        decreases from + 1,
    {
        if from >= 0 {
            lemma_block_pages(target - from);
            if self.list(from).len() < block_pages(target - from) {
                self.lemma_merge_source(target, from - 1);
            }
        }
    }

    /// An allocation keeps directory and bitmap consistent, and every
    /// frame with at most one page.
    pub proof fn law_allocate_keeps_consistency(
        &self,
        dir: &PageDirectory,
        bitmap: &PhysicalMemory,
        post: &HeapAllocator,
        post_dir: &PageDirectory,
        post_bitmap: &PhysicalMemory,
        layout: Layout,
        r: Option<usize>,
    )
        requires
            self.inv(dir, bitmap),
            dir.consistent(bitmap),
            dir.exclusive(),
            self.allocate_post(dir, bitmap, post, post_dir, post_bitmap, layout, r),
        ensures
            post_dir.consistent(post_bitmap),
            post_dir.exclusive(),
    {
        self.law_allocation_effect(dir, bitmap, post, post_dir, post_bitmap, layout, r);
        self.lemma_effect_keeps_consistency(dir, bitmap, post, post_dir, post_bitmap);
    }

    proof fn lemma_effect_keeps_consistency(
        &self,
        dir: &PageDirectory,
        bitmap: &PhysicalMemory,
        post: &HeapAllocator,
        post_dir: &PageDirectory,
        post_bitmap: &PhysicalMemory,
    )
        requires
            self.inv(dir, bitmap),
            dir.consistent(bitmap),
            dir.exclusive(),
            self.allocation_effect(dir, bitmap, post, post_dir, post_bitmap),
        ensures
            post_dir.consistent(post_bitmap),
            post_dir.exclusive(),
    {
        let first = self.cursor() as int / 0x1000;
        let n = post.cursor() as int / 0x1000 - first;
        let flags = domain_flags(self.privilege());
        let taken = post_bitmap@.difference(bitmap@);
        if self.paging() {
            // What a page of the new directory is mapped to.
            assert forall|page: int, frame: int|
                0 <= page < N_FRAMES && #[trigger] post_dir.page_at(page, frame) implies (first <= page
                < first + n && taken.contains(frame)) || (!(first <= page < first + n) && dir.page_at(
                page,
                frame,
            ) && bitmap@.contains(frame)) by {
                assert(0 <= page / 1024 < 1024);
                assert(post_dir.pde(page / 1024) == dir.pde(page / 1024));
                if first <= page < first + n {
                    let word = post_dir.page_word(page);
                    assert(taken.contains(word_frame(word) as int / 0x1000));
                } else {
                    assert(post_dir.page_word(page) == dir.page_word(page));
                    assert(dir.page_at(page, frame));
                    assert(dir.refers_to(frame));
                }
            }
            assert forall|i: int, frame: int|
                0 <= i < 1024 && #[trigger] post_dir.table_at(i, frame) implies dir.table_at(i, frame)
                && bitmap@.contains(frame) by {
                assert(post_dir.pde(i) == dir.pde(i));
                assert(dir.table_at(i, frame));
                assert(dir.refers_to(frame));
            }
            assert forall|frame: int| #[trigger] post_dir.refers_to(frame) implies post_bitmap@.contains(
                frame,
            ) by {
                if exists|i: int| 0 <= i < 1024 && #[trigger] post_dir.table_at(i, frame) {
                    let i = choose|i: int| 0 <= i < 1024 && #[trigger] post_dir.table_at(i, frame);
                    assert(dir.table_at(i, frame));
                } else {
                    let page = choose|page: int|
                        0 <= page < N_FRAMES && #[trigger] post_dir.page_at(page, frame);
                    assert(post_dir.page_at(page, frame));
                }
            }
            assert forall|p: int, q: int, frame: int|
                0 <= p < N_FRAMES && 0 <= q < N_FRAMES && #[trigger] post_dir.page_at(p, frame)
                    && #[trigger] post_dir.page_at(q, frame) implies p == q by {
                if first <= p < first + n && first <= q < first + n {
                    if p != q {
                        assert(word_frame(post_dir.page_word(p)) != word_frame(
                            post_dir.page_word(q),
                        ));
                    }
                }
            }
            assert forall|i: int, page: int, frame: int|
                0 <= i < 1024 && 0 <= page < N_FRAMES implies !(#[trigger] post_dir.table_at(i, frame)
                && #[trigger] post_dir.page_at(page, frame)) by {
                if post_dir.table_at(i, frame) && post_dir.page_at(page, frame) {
                    assert(dir.table_at(i, frame));
                }
            }
        } else {
            assert forall|frame: int| #[trigger] post_dir.refers_to(frame) implies post_bitmap@.contains(
                frame,
            ) by {
                assert(dir.refers_to(frame));
            }
        }
    }

    /// A heap that keeps apart from the heap that allocates is left
    /// fitting the directory and the bitmap, and the two still keep
    /// apart.
    pub proof fn law_allocate_leaves_other_heap(
        &self,
        other: &HeapAllocator,
        dir: &PageDirectory,
        bitmap: &PhysicalMemory,
        post: &HeapAllocator,
        post_dir: &PageDirectory,
        post_bitmap: &PhysicalMemory,
        layout: Layout,
        r: Option<usize>,
    )
        requires
            self.inv(dir, bitmap),
            other.inv(dir, bitmap),
            self.apart(other),
            self.allocate_post(dir, bitmap, post, post_dir, post_bitmap, layout, r),
        ensures
            other.inv(post_dir, post_bitmap),
            post.apart(other),
    {
        self.law_allocation_effect(dir, bitmap, post, post_dir, post_bitmap, layout, r);
        let first = self.cursor() as int / 0x1000;
        let n = post.cursor() as int / 0x1000 - first;
        assert forall|frame: int| other.owns_frame(frame) implies !post_bitmap@.contains(frame) by {
            if post_bitmap@.contains(frame) {
                assert(!bitmap@.contains(frame));
                assert(self.lost_frames(post).contains(frame));
                assert(self.owns_frame(frame));
            }
        }
        assert forall|frame: int| !(#[trigger] post.owns_frame(frame) && other.owns_frame(frame)) by {
            if post.owns_frame(frame) {
                assert(self.owns_frame(frame));
            }
        }
        if other.paging() {
            assert forall|page: int|
                other.cursor() as int / 0x1000 <= page < other.window_end() as int
                    / 0x1000 implies #[trigger] post_dir.mappable(page) by {
                assert(dir.mappable(page));
                if self.paging() {
                    assert(0 <= page / 1024 < 1024);
                    assert(post_dir.pde(page / 1024) == dir.pde(page / 1024));
                    if !(first <= page < first + n) {
                        assert(post_dir.page_word(page) == dir.page_word(page));
                    }
                }
            }
        }
    }

    /// What every deallocation does, whether it went through or ended on
    /// the way: the free lists only gain frames; the bitmap only loses
    /// frames, and only frames that the lists gained; and with paging
    /// table entries are only cleared, none beyond the first `limit`
    /// pages under `address`, and every frame that the bitmap lost was
    /// mapped by a page that is cleared now.
    pub open spec fn deallocation_effect(
        &self,
        dir: &PageDirectory,
        bitmap: &PhysicalMemory,
        post: &HeapAllocator,
        post_dir: &PageDirectory,
        post_bitmap: &PhysicalMemory,
        address: usize,
        limit: int,
    ) -> bool {
        let first = address as int / 0x1000;
        &&& forall|frame: int| self.owns_frame(frame) ==> #[trigger] post.owns_frame(frame)
        &&& forall|frame: int| post_bitmap@.contains(frame) ==> bitmap@.contains(frame)
        &&& forall|frame: int|
            bitmap@.contains(frame) && !post_bitmap@.contains(frame) ==> #[trigger] self.gained_frames(
                post,
            ).contains(frame)
        &&& forall|frame: int| #[trigger]
            self.gained_frames(post).contains(frame) ==> bitmap@.contains(frame)
        &&& post.cursor() == self.cursor()
        &&& post.window_end() == self.window_end()
        &&& post.paging() == self.paging()
        &&& post.privilege() == self.privilege()
        &&& if self.paging() {
            &&& post_dir.wf()
            &&& post_dir.frame() == dir.frame()
            &&& post_dir.recursive() == dir.recursive()
            &&& forall|i: int| 0 <= i < 1024 ==> post_dir.pde(i) == dir.pde(i)
            &&& forall|page: int|
                0 <= page < N_FRAMES ==> #[trigger] post_dir.page_word(page) == dir.page_word(page) || (
                first <= page < first + limit && post_dir.page_word(page) == 0)
            &&& forall|frame: int|
                bitmap@.contains(frame) && !post_bitmap@.contains(frame) ==> exists|page: int|
                    first <= page < first + limit && page < N_FRAMES && #[trigger] dir.page_at(
                        page,
                        frame,
                    ) && post_dir.page_word(page) == 0
        } else {
            *post_dir == *dir
        }
    }

    /// Taking back one block has the effect that `deallocation_effect`
    /// states.
    pub proof fn lemma_release_effect(
        &self,
        dir: &PageDirectory,
        bitmap: &PhysicalMemory,
        post: &HeapAllocator,
        post_dir: &PageDirectory,
        post_bitmap: &PhysicalMemory,
        address: usize,
        order: int,
        r: Result<(), HeapError>,
    )
        requires
            self.inv(dir, bitmap),
            0 <= order <= MAX_ORDER,
            self.release_block_post(dir, bitmap, post, post_dir, post_bitmap, address, order, r),
        ensures
            self.deallocation_effect(
                dir,
                bitmap,
                post,
                post_dir,
                post_bitmap,
                address,
                block_pages(order),
            ),
    {
        let base = self.block_base(dir, address);
        let first = address as int / 0x1000;
        let pages = block_pages(order);
        lemma_block_pages(order);
        lemma_block_pages(0);
        lemma_block_size_order(order, 10);
        if self.live_block(dir, bitmap, address, order) && self.list(order).len() < LIST_COUNT {
            lemma_aligned_lower(base as int, 0, order);
            let n = self.list(order).len() as int;
            assert(post.list(order)[n] == base);
            assert forall|frame: int| self.owns_frame(frame) implies #[trigger] post.owns_frame(
                frame,
            ) by {
                let (k, i) = choose|k: int, i: int|
                    0 <= k <= MAX_ORDER && 0 <= i < self.list(k).len() && in_block(
                        frame,
                        #[trigger] self.list(k)[i],
                        k,
                    );
                assert(post.list(k)[i] == self.list(k)[i]);
            }
            assert forall|frame: int| #[trigger]
                self.gained_frames(post).contains(frame) implies bitmap@.contains(frame) by {
                let (k, i) = choose|k: int, i: int|
                    0 <= k <= MAX_ORDER && 0 <= i < post.list(k).len() && in_block(
                        frame,
                        #[trigger] post.list(k)[i],
                        k,
                    );
                if !(k == order && i == n) {
                    assert(post.list(k)[i] == self.list(k)[i]);
                    assert(self.owns_frame(frame));
                } else {
                    let page = first + (frame - base as int / 0x1000);
                    assert(self.page_live(dir, bitmap, address, page));
                }
            }
            assert forall|frame: int|
                bitmap@.contains(frame) && !post_bitmap@.contains(frame) implies #[trigger] self.gained_frames(
                post,
            ).contains(frame) && (self.paging() ==> exists|page: int|
                first <= page < first + pages && page < N_FRAMES && #[trigger] dir.page_at(page, frame)
                    && post_dir.page_word(page) == 0) by {
                assert(in_block(frame, base, order));
                assert(in_block(frame, post.list(order)[n], order));
                assert(post.owns_frame(frame));
                if self.owns_frame(frame) {
                    assert(!bitmap@.contains(frame));
                }
                let page = first + (frame - base as int / 0x1000);
                assert(self.page_live(dir, bitmap, address, page));
                if self.paging() {
                    assert(0 <= page < N_FRAMES);
                    assert(dir.page_at(page, frame));
                    assert(post_dir.page_word(page) == 0);
                }
            }
            if self.paging() {
                assert forall|frame: int|
                    bitmap@.contains(frame) && !post_bitmap@.contains(frame) implies exists|page: int|
                    first <= page < first + pages && page < N_FRAMES && #[trigger] dir.page_at(
                        page,
                        frame,
                    ) && post_dir.page_word(page) == 0 by {
                    assert(self.gained_frames(post).contains(frame));
                }
            }
        }
    }

    /// Every deallocation has the effect that `deallocation_effect`
    /// states.
    pub proof fn law_deallocation_effect(
        &self,
        dir: &PageDirectory,
        bitmap: &PhysicalMemory,
        post: &HeapAllocator,
        post_dir: &PageDirectory,
        post_bitmap: &PhysicalMemory,
        address: usize,
        layout: Layout,
        r: Result<(), HeapError>,
    )
        requires
            self.inv(dir, bitmap),
            post.inv(post_dir, post_bitmap),
            self.deallocate_post(dir, bitmap, post, post_dir, post_bitmap, address, layout, r),
        ensures
            exists|limit: int| #[trigger]
                self.deallocation_effect(dir, bitmap, post, post_dir, post_bitmap, address, limit),
    {
        let size = if layout.size >= layout.align {
            layout.size
        } else {
            layout.align
        };
        let k = fit_order(size as int);
        let first = address as int / 0x1000;
        lemma_fit_order_holds(size as int);
        if k <= MAX_ORDER {
            self.lemma_release_effect(dir, bitmap, post, post_dir, post_bitmap, address, k, r);
        } else if !self.paging() {
            assert(self.deallocation_effect(dir, bitmap, post, post_dir, post_bitmap, address, 0));
        } else {
            let pages = Self::pages_for(size as int);
            let done = if r is Ok {
                pages
            } else {
                choose|done: int|
                    0 <= done < pages && #[trigger] self.released_run(
                        dir,
                        bitmap,
                        post,
                        post_dir,
                        post_bitmap,
                        address,
                        done,
                    )
            };
            assert(self.released_run(dir, bitmap, post, post_dir, post_bitmap, address, done));
            assert forall|frame: int| self.owns_frame(frame) implies #[trigger] post.owns_frame(
                frame,
            ) by {
                let (m, i) = choose|m: int, i: int|
                    0 <= m <= MAX_ORDER && 0 <= i < self.list(m).len() && in_block(
                        frame,
                        #[trigger] self.list(m)[i],
                        m,
                    );
                assert(self.list(m).len() <= post.list(m).len());
                assert(self.list(m) == post.list(m).take(self.list(m).len() as int));
                assert(post.list(m)[i] == self.list(m)[i]);
            }
            assert forall|frame: int|
                bitmap@.contains(frame) && !post_bitmap@.contains(frame) implies #[trigger] self.gained_frames(
                post,
            ).contains(frame) && exists|page: int|
                first <= page < first + done && page < N_FRAMES && #[trigger] dir.page_at(page, frame)
                    && post_dir.page_word(page) == 0 by {
                assert(Self::run_frames(dir, first, done).contains(frame));
                let page = choose|page: int|
                    first <= page < first + done && page < N_FRAMES && #[trigger] dir.page_at(
                        page,
                        frame,
                    );
                assert(0 <= page);
                assert(post_dir.page_word(page) == 0);
            }
            assert(self.deallocation_effect(dir, bitmap, post, post_dir, post_bitmap, address, done));
        }
    }

    /// With paging, a deallocation keeps directory and bitmap consistent,
    /// and every frame with at most one page.
    pub proof fn law_deallocate_keeps_consistency(
        &self,
        dir: &PageDirectory,
        bitmap: &PhysicalMemory,
        post: &HeapAllocator,
        post_dir: &PageDirectory,
        post_bitmap: &PhysicalMemory,
        address: usize,
        layout: Layout,
        r: Result<(), HeapError>,
    )
        requires
            self.inv(dir, bitmap),
            post.inv(post_dir, post_bitmap),
            self.paging(),
            dir.consistent(bitmap),
            dir.exclusive(),
            self.deallocate_post(dir, bitmap, post, post_dir, post_bitmap, address, layout, r),
        ensures
            post_dir.consistent(post_bitmap),
            post_dir.exclusive(),
    {
        self.law_deallocation_effect(dir, bitmap, post, post_dir, post_bitmap, address, layout, r);
        let limit = choose|limit: int| #[trigger]
            self.deallocation_effect(dir, bitmap, post, post_dir, post_bitmap, address, limit);
        let first = address as int / 0x1000;
        lemma_entry_word(0, 0);
        assert forall|page: int, frame: int|
            0 <= page < N_FRAMES && #[trigger] post_dir.page_at(page, frame) implies dir.page_at(
            page,
            frame,
        ) && post_dir.page_word(page) != 0 by {
            assert(0 <= page / 1024 < 1024);
            assert(post_dir.pde(page / 1024) == dir.pde(page / 1024));
            assert(post_dir.page_word(page) == dir.page_word(page) || post_dir.page_word(page) == 0);
        }
        assert forall|i: int, frame: int|
            0 <= i < 1024 && #[trigger] post_dir.table_at(i, frame) implies dir.table_at(i, frame) by {
            assert(post_dir.pde(i) == dir.pde(i));
        }
        assert forall|frame: int| #[trigger] post_dir.refers_to(frame) implies post_bitmap@.contains(
            frame,
        ) by {
            if exists|i: int| 0 <= i < 1024 && #[trigger] post_dir.table_at(i, frame) {
                let i = choose|i: int| 0 <= i < 1024 && #[trigger] post_dir.table_at(i, frame);
                assert(dir.table_at(i, frame));
                assert(dir.refers_to(frame));
                if !post_bitmap@.contains(frame) {
                    let q = choose|q: int|
                        first <= q < first + limit && q < N_FRAMES && #[trigger] dir.page_at(q, frame)
                            && post_dir.page_word(q) == 0;
                    assert(0 <= q) by {
                        assert(dir.has_table(q));
                    }
                }
            } else {
                let page = choose|page: int|
                    0 <= page < N_FRAMES && #[trigger] post_dir.page_at(page, frame);
                assert(dir.page_at(page, frame));
                assert(dir.refers_to(frame));
                if !post_bitmap@.contains(frame) {
                    let q = choose|q: int|
                        first <= q < first + limit && q < N_FRAMES && #[trigger] dir.page_at(q, frame)
                            && post_dir.page_word(q) == 0;
                    assert(q != page);
                }
            }
        }
    }

    /// A heap is left fitting the directory and the bitmap by another
    /// heap's deallocation, and two heaps that kept apart still do.
    pub proof fn law_deallocate_leaves_other_heap(
        &self,
        other: &HeapAllocator,
        dir: &PageDirectory,
        bitmap: &PhysicalMemory,
        post: &HeapAllocator,
        post_dir: &PageDirectory,
        post_bitmap: &PhysicalMemory,
        address: usize,
        layout: Layout,
        r: Result<(), HeapError>,
    )
        requires
            self.inv(dir, bitmap),
            post.inv(post_dir, post_bitmap),
            other.inv(dir, bitmap),
            self.apart(other),
            self.deallocate_post(dir, bitmap, post, post_dir, post_bitmap, address, layout, r),
        ensures
            other.inv(post_dir, post_bitmap),
            post.apart(other),
    {
        self.law_deallocation_effect(dir, bitmap, post, post_dir, post_bitmap, address, layout, r);
        let limit = choose|limit: int| #[trigger]
            self.deallocation_effect(dir, bitmap, post, post_dir, post_bitmap, address, limit);
        lemma_entry_word(0, 0);
        assert forall|frame: int| !(#[trigger] post.owns_frame(frame) && other.owns_frame(frame)) by {
            if post.owns_frame(frame) && other.owns_frame(frame) {
                assert(!self.owns_frame(frame));
                assert(self.gained_frames(post).contains(frame));
                assert(!bitmap@.contains(frame));
            }
        }
        if other.paging() && self.paging() {
            assert forall|page: int|
                other.cursor() as int / 0x1000 <= page < other.window_end() as int
                    / 0x1000 implies #[trigger] post_dir.mappable(page) by {
                assert(dir.mappable(page));
                assert(0 <= page / 1024 < 1024);
                assert(post_dir.pde(page / 1024) == dir.pde(page / 1024));
                assert(post_dir.page_word(page) == dir.page_word(page) || post_dir.page_word(page)
                    == 0);
            }
        }
    }

    /// Two heaps whose free blocks lie in ranges that do not overlap, and
    /// whose windows do not overlap, keep apart.
    pub proof fn law_heaps_in_ranges_keep_apart(
        &self,
        other: &HeapAllocator,
        start: usize,
        end: usize,
        other_start: usize,
        other_end: usize,
    )
        requires
            self.wf(),
            other.wf(),
            self.within(start, end),
            other.within(other_start, other_end),
            end <= other_start || other_end <= start,
            self.window_end() <= other.cursor() || other.window_end() <= self.cursor(),
        ensures
            self.apart(other),
    {
        assert forall|frame: int| !(#[trigger] self.owns_frame(frame) && other.owns_frame(frame)) by {
            if self.owns_frame(frame) && other.owns_frame(frame) {
                let (k, i) = choose|k: int, i: int|
                    0 <= k <= MAX_ORDER && 0 <= i < self.list(k).len() && in_block(
                        frame,
                        #[trigger] self.list(k)[i],
                        k,
                    );
                let (m, j) = choose|m: int, j: int|
                    0 <= m <= MAX_ORDER && 0 <= j < other.list(m).len() && in_block(
                        frame,
                        #[trigger] other.list(m)[j],
                        m,
                    );
                let a = self.list(k)[i];
                let b = other.list(m)[j];
                assert(start <= a && a + block_size(k) <= end);
                assert(other_start <= b && b + block_size(m) <= other_end);
            }
        }
    }
}

} // verus!
