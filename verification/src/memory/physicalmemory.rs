//! The physical frame allocator: one bit per 4 KiB frame of the 4 GiB
//! physical address space, most significant bit first within each word.

use vstd::prelude::*;
use crate::memory::virtualmemory::PDA;
use crate::sys::multiboot::{MultibootMemoryMapEntry, AVAILABLE_RAM};

verus! {

/// Number of 4 KiB frames in the 4 GiB physical address space.
pub const N_FRAMES: usize = 1048576;

/// Number of 32-bit words in the bitmap.
pub const BITMAP_LEN: usize = 32768;

/// Size of a frame in bytes.
pub const FRAME_SIZE: usize = 0x1000;

/// What a frame operation can fail with.
#[derive(Debug, Clone, Copy, PartialEq, Eq, Structural)]
pub enum PhysicalMemoryError {
    /// The address lies beyond the last frame that the bitmap covers.
    OutOfMemory,
    /// No frame is free.
    NoFrameAvailable,
    /// The frame is already marked as used.
    FrameAlreadyInUse,
    /// The frame is not marked as used.
    FrameNotInUse,
}

/// The bit that stands for a frame inside its word: bit 31 for the first
/// frame of the word, bit 0 for the last.
pub open spec fn frame_mask(frame: int) -> u32 {
    0x8000_0000u32 >> ((frame % 32) as u32)
}

/// The frame bitmap together with the cursor at which the next scan starts.
pub struct PhysicalMemory {
    pub bitmap: [u32; BITMAP_LEN],
    pub next: usize,
}

impl View for PhysicalMemory {
    type V = Set<int>;

    /// The numbers of the frames that are marked as used.
    open spec fn view(&self) -> Set<int> {
        Set::new(|frame: int| self.frame_used(frame))
    }
}

proof fn lemma_set_bit(w: u32, o: u32, p: u32)
    by (bit_vector)
    requires
        o < 32,
        p < 32,
    ensures
        ((w | (0x8000_0000u32 >> o)) & (0x8000_0000u32 >> p) != 0) == (p == o || w & (0x8000_0000u32
            >> p) != 0),
{
}

proof fn lemma_clear_bit(w: u32, o: u32, p: u32)
    by (bit_vector)
    requires
        o < 32,
        p < 32,
    ensures
        ((w & !(0x8000_0000u32 >> o)) & (0x8000_0000u32 >> p) != 0) == (p != o && w & (0x8000_0000u32
            >> p) != 0),
{
}

proof fn lemma_set_then_clear(w: u32, o: u32)
    by (bit_vector)
    requires
        o < 32,
        w & (0x8000_0000u32 >> o) == 0,
    ensures
        (w | (0x8000_0000u32 >> o)) & !(0x8000_0000u32 >> o) == w,
{
}

proof fn lemma_bit_of_full_word(o: u32)
    by (bit_vector)
    requires
        o < 32,
    ensures
        0xFFFF_FFFFu32 & (0x8000_0000u32 >> o) != 0,
{
}

/// Whether the `j` most significant bits of `w` are all set.
spec fn leading_ones(w: u32, j: u32) -> bool {
    j == 0 || w >> ((32 - j) as u32) == 0xFFFF_FFFFu32 >> ((32 - j) as u32)
}

proof fn lemma_leading_ones_step(w: u32, j: u32)
    by (bit_vector)
    requires
        j < 32,
        leading_ones(w, j),
        w & (0x8000_0000u32 >> j) != 0,
    ensures
        leading_ones(w, (j + 1) as u32),
{
}

proof fn lemma_leading_ones_full(w: u32)
    by (bit_vector)
    requires
        leading_ones(w, 32),
    ensures
        w == 0xFFFF_FFFFu32,
{
}

/// Whether two words agree in their `j` most significant bits.
spec fn leading_same(v: u32, w: u32, j: u32) -> bool {
    j == 0 || v >> ((32 - j) as u32) == w >> ((32 - j) as u32)
}

proof fn lemma_leading_same_step(v: u32, w: u32, j: u32)
    by (bit_vector)
    requires
        j < 32,
        leading_same(v, w, j),
        (v & (0x8000_0000u32 >> j) != 0) == (w & (0x8000_0000u32 >> j) != 0),
    ensures
        leading_same(v, w, (j + 1) as u32),
{
}

proof fn lemma_leading_same_full(v: u32, w: u32)
    by (bit_vector)
    requires
        leading_same(v, w, 32),
    ensures
        v == w,
{
}

/// Words that agree bit by bit agree in their first `j` bits.
proof fn lemma_same_bits(v: u32, w: u32, j: u32)
    requires
        j <= 32,
        forall|o: u32| o < 32 ==> (v & (0x8000_0000u32 >> o) != 0) == (w & (0x8000_0000u32 >> o) != 0),
    ensures
        leading_same(v, w, j),
    decreases j,
{
    if j > 0 {
        lemma_same_bits(v, w, (j - 1) as u32);
        lemma_leading_same_step(v, w, (j - 1) as u32);
    }
}

impl PhysicalMemory {
    /// Whether `frame` is covered by the bitmap and its bit is set.
    pub open spec fn frame_used(&self, frame: int) -> bool {
        0 <= frame < N_FRAMES && self.bitmap[frame / 32] & frame_mask(frame) != 0
    }

    /// The index of the word at which `alloc_frame` starts to scan.
    pub open spec fn cursor(&self) -> int {
        self.next as int
    }

    /// What `alloc_frame_address` leaves when it marks `frame`: the bit is
    /// set in its word, every other word is untouched, and the cursor
    /// stands on that word.
    pub open spec fn marked(&self, post: &PhysicalMemory, frame: int) -> bool {
        &&& post.bitmap@ == self.bitmap@.update(
            frame / 32,
            self.bitmap[frame / 32] | frame_mask(frame),
        )
        &&& post@ == self@.insert(frame)
        &&& post.cursor() == frame / 32
    }

    /// What `free_frame` leaves when it releases `frame`.
    pub open spec fn released(&self, post: &PhysicalMemory, frame: int) -> bool {
        &&& post.bitmap@ == self.bitmap@.update(
            frame / 32,
            self.bitmap[frame / 32] & !frame_mask(frame),
        )
        &&& post@ == self@.remove(frame)
        &&& post.cursor() == frame / 32
    }

    /// Where the cursor stands after the `count` frames from `first` on
    /// were marked or released one by one, lowest first: on the word of
    /// the last of them.
    pub open spec fn cursor_after_run(&self, first: int, count: int) -> int {
        if count > 0 {
            (first + count - 1) / 32
        } else {
            self.cursor()
        }
    }

    /// What marking `count` frames in a row from `first` leaves.
    pub open spec fn run_marked(&self, post: &PhysicalMemory, first: int, count: int) -> bool {
        &&& post@ == self@.union(Set::new(|frame: int| first <= frame < first + count))
        &&& post.cursor() == self.cursor_after_run(first, count)
    }

    /// What releasing `count` frames in a row from `first` leaves.
    pub open spec fn run_released(&self, post: &PhysicalMemory, first: int, count: int) -> bool {
        &&& post@ == self@.difference(Set::new(|frame: int| first <= frame < first + count))
        &&& post.cursor() == self.cursor_after_run(first, count)
    }

    /// The contract of `alloc_frame_address`: a frame beyond the bitmap is
    /// out of range, a frame in use is refused, and both leave the bitmap
    /// as it was; else the frame is marked.
    pub open spec fn alloc_frame_address_post(
        &self,
        post: &PhysicalMemory,
        address: usize,
        r: Result<(), PhysicalMemoryError>,
    ) -> bool {
        let frame = address as int / 0x1000;
        if frame >= N_FRAMES {
            r == Err::<(), PhysicalMemoryError>(PhysicalMemoryError::OutOfMemory) && *post == *self
        } else if self@.contains(frame) {
            r == Err::<(), PhysicalMemoryError>(PhysicalMemoryError::FrameAlreadyInUse) && *post
                == *self
        } else {
            r is Ok && self.marked(post, frame)
        }
    }

    /// The contract of `free_frame`: a frame that is not in use is refused
    /// and the bitmap stays as it was; else the frame is released.
    pub open spec fn free_frame_post(
        &self,
        post: &PhysicalMemory,
        address: usize,
        r: Result<(), PhysicalMemoryError>,
    ) -> bool {
        let frame = address as int / 0x1000;
        if self@.contains(frame) {
            r is Ok && self.released(post, frame)
        } else {
            r == Err::<(), PhysicalMemoryError>(PhysicalMemoryError::FrameNotInUse) && *post == *self
        }
    }

    /// The contract of `alloc_frame`: it fails exactly when no frame at
    /// all is free, and then nothing changes; else the frame that
    /// `is_next_free` names is marked and its address returned.
    pub open spec fn alloc_frame_post(
        &self,
        post: &PhysicalMemory,
        r: Result<usize, PhysicalMemoryError>,
    ) -> bool {
        match r {
            Ok(address) => address % 0x1000 == 0 && self.is_next_free(address as int / 0x1000)
                && self.marked(post, address as int / 0x1000),
            Err(e) => e == PhysicalMemoryError::NoFrameAvailable && self.full() && *post == *self,
        }
    }

    /// Whether every frame that the bitmap covers is used.
    pub open spec fn full(&self) -> bool {
        forall|g: int| 0 <= g < N_FRAMES ==> self.frame_used(g)
    }

    /// Whether `frame` is the lowest free frame from frame `from` up.
    pub open spec fn lowest_free_from(&self, from: int, frame: int) -> bool {
        &&& 0 <= from <= frame < N_FRAMES
        &&& !self.frame_used(frame)
        &&& forall|g: int| from <= g < frame ==> self.frame_used(g)
    }

    /// The frame that `alloc_frame` picks: the lowest free frame at or
    /// after the first frame of the cursor's word; if there is none, the
    /// lowest free frame of all. The cursor decides only which free frame
    /// is picked, never whether one is.
    pub open spec fn is_next_free(&self, frame: int) -> bool {
        if self.exhausted() {
            self.lowest_free_from(0, frame)
        } else {
            self.lowest_free_from(self.cursor() * 32, frame)
        }
    }

    /// Whether every frame from the cursor's word on is used.
    pub open spec fn exhausted(&self) -> bool {
        forall|g: int| self.cursor() * 32 <= g < N_FRAMES ==> self.frame_used(g)
    }

    /// A bitmap in which every frame is free and the cursor is at the start.
    pub fn new() -> (pm: PhysicalMemory)
        ensures
            pm@ == Set::<int>::empty(),
            pm.cursor() == 0,
            forall|i: int| 0 <= i < BITMAP_LEN ==> pm.bitmap[i] == 0,
    {
        let pm = PhysicalMemory { bitmap: [0u32; BITMAP_LEN], next: 0 };
        proof {
            assert forall|frame: int| !pm.frame_used(frame) by {
                if 0 <= frame < N_FRAMES {
                    let o = (frame % 32) as u32;
                    assert(0u32 & (0x8000_0000u32 >> o) == 0) by (bit_vector);
                }
            }
            assert(pm@ =~= Set::<int>::empty());
        }
        pm
    }

    /// The lowest free frame of the words from `from` up to, not
    /// including, `to`.
    fn first_free_between(&self, from: usize, to: usize) -> (r: Option<usize>)
        requires
            from <= to <= BITMAP_LEN,
        ensures
            match r {
                Some(frame) => frame < to * 32 && self.lowest_free_from(from * 32, frame as int),
                None => forall|g: int| from * 32 <= g < to * 32 ==> self.frame_used(g),
            },
    {
        let mut i = from;
        while i < to && self.bitmap[i] == 0xFFFF_FFFFu32
            invariant
                from <= i <= to <= BITMAP_LEN,
                forall|w: int| from <= w < i ==> self.bitmap[w] == 0xFFFF_FFFFu32,
            decreases to - i,
        {
            i += 1;
        }
        if i >= to {
            proof {
                assert forall|g: int| from * 32 <= g < to * 32 implies self.frame_used(g) by {
                    self.lemma_full_word_used(g);
                }
            }
            return None;
        }
        let w = self.bitmap[i];
        let mut j: u32 = 0;
        while j < 32 && w & (0x8000_0000u32 >> j) != 0
            invariant
                j <= 32,
                leading_ones(w, j),
                forall|o: u32| o < j ==> w & (0x8000_0000u32 >> o) != 0,
            decreases 32 - j,
        {
            proof {
                lemma_leading_ones_step(w, j);
            }
            j += 1;
        }
        proof {
            if j == 32 {
                lemma_leading_ones_full(w);
            }
        }
        let frame = i * 32 + j as usize;
        proof {
            let f = frame as int;
            assert(f / 32 == i && f % 32 == j);
            assert forall|g: int| from * 32 <= g < f implies self.frame_used(g) by {
                if g / 32 < i {
                    self.lemma_full_word_used(g);
                } else {
                    assert(g / 32 == i);
                    let o = (g % 32) as u32;
                    assert(o < j);
                }
            }
        }
        Some(frame)
    }

    /// The address of the frame that `alloc_frame` would pick.
    pub fn next_available(&self) -> (r: Result<usize, PhysicalMemoryError>)
        ensures
            match r {
                Ok(address) => address % 0x1000 == 0 && self.is_next_free(address as int / 0x1000),
                Err(e) => e == PhysicalMemoryError::NoFrameAvailable && self.full(),
            },
    {
        let start = if self.next < BITMAP_LEN {
            self.next
        } else {
            BITMAP_LEN
        };
        match self.first_free_between(start, BITMAP_LEN) {
            Some(frame) => Ok(frame * 0x1000),
            None => match self.first_free_between(0, start) {
                Some(frame) => Ok(frame * 0x1000),
                None => Err(PhysicalMemoryError::NoFrameAvailable),
            },
        }
    }

    proof fn lemma_full_word_used(&self, g: int)
        requires
            0 <= g < N_FRAMES,
            self.bitmap[g / 32] == 0xFFFF_FFFFu32,
        ensures
            self.frame_used(g),
    {
        lemma_bit_of_full_word((g % 32) as u32);
    }

    proof fn lemma_marked(&self, post: &PhysicalMemory, frame: int)
        requires
            0 <= frame < N_FRAMES,
            post.bitmap@ == self.bitmap@.update(
                frame / 32,
                self.bitmap[frame / 32] | frame_mask(frame),
            ),
        ensures
            post@ == self@.insert(frame),
    {
        assert forall|g: int| post.frame_used(g) == (g == frame || self.frame_used(g)) by {
            if 0 <= g < N_FRAMES {
                if g / 32 == frame / 32 {
                    lemma_set_bit(self.bitmap[frame / 32], (frame % 32) as u32, (g % 32) as u32);
                }
            }
        }
        assert(post@ =~= self@.insert(frame));
    }

    proof fn lemma_released(&self, post: &PhysicalMemory, frame: int)
        requires
            0 <= frame < N_FRAMES,
            post.bitmap@ == self.bitmap@.update(
                frame / 32,
                self.bitmap[frame / 32] & !frame_mask(frame),
            ),
        ensures
            post@ == self@.remove(frame),
    {
        assert forall|g: int| post.frame_used(g) == (g != frame && self.frame_used(g)) by {
            if 0 <= g < N_FRAMES {
                if g / 32 == frame / 32 {
                    lemma_clear_bit(self.bitmap[frame / 32], (frame % 32) as u32, (g % 32) as u32);
                }
            }
        }
        assert(post@ =~= self@.remove(frame));
    }

    /// Marks the frame at `address` as used.
    fn alloc_bitmap(&mut self, address: usize) -> (r: Result<(), PhysicalMemoryError>)
        requires
            address % 0x1000 == 0,
        ensures
            old(self).alloc_frame_address_post(final(self), address, r),
    {
        let index = address / 0x1000 / 0x20;
        let offset: u32 = (address / 0x1000 % 0x20) as u32;
        if index >= BITMAP_LEN {
            return Err(PhysicalMemoryError::OutOfMemory);
        }
        let word = self.bitmap[index];
        if word & (0x8000_0000u32 >> offset) == 0 {
            self.bitmap[index] = word | (0x8000_0000u32 >> offset);
            self.next = index;
            proof {
                old(self).lemma_marked(&*self, address as int / 0x1000);
            }
            Ok(())
        } else {
            Err(PhysicalMemoryError::FrameAlreadyInUse)
        }
    }

    /// Releases the frame at `address`.
    ///
    /// An address beyond the bitmap names no frame that could be in use.
    pub fn free_frame(&mut self, address: usize) -> (r: Result<(), PhysicalMemoryError>)
        requires
            address % 0x1000 == 0,
        ensures
            old(self).free_frame_post(final(self), address, r),
    {
        let index = address / 0x1000 / 0x20;
        let offset: u32 = (address / 0x1000 % 0x20) as u32;
        if index >= BITMAP_LEN {
            return Err(PhysicalMemoryError::FrameNotInUse);
        }
        let word = self.bitmap[index];
        if word & (0x8000_0000u32 >> offset) != 0 {
            self.bitmap[index] = word & !(0x8000_0000u32 >> offset);
            self.next = index;
            proof {
                old(self).lemma_released(&*self, address as int / 0x1000);
            }
            Ok(())
        } else {
            Err(PhysicalMemoryError::FrameNotInUse)
        }
    }

    /// Whether frame number `frame` is covered by the bitmap and free.
    pub fn is_frame_free(&self, frame: usize) -> (free: bool)
        ensures
            free == (frame < N_FRAMES && !self@.contains(frame as int)),
    {
        let index = frame / 0x20;
        let offset: u32 = (frame % 0x20) as u32;
        if index >= BITMAP_LEN {
            return false;
        }
        (self.bitmap[index] & (0x8000_0000u32 >> offset)) == 0
    }

    /// Whether the frame at `address` is covered by the bitmap and free.
    pub fn is_address_free(&self, address: usize) -> (free: bool)
        requires
            address % 0x1000 == 0,
        ensures
            free == (address / 0x1000 < N_FRAMES && !self@.contains(address as int / 0x1000)),
    {
        self.is_frame_free(address / 0x1000)
    }

    /// Marks a free frame as used and returns its address: the first at
    /// or after the cursor's word, or, with none there, the first of all.
    pub fn alloc_frame(&mut self) -> (r: Result<usize, PhysicalMemoryError>)
        ensures
            old(self).alloc_frame_post(final(self), r),
    {
        match self.next_available() {
            Ok(next) => {
                match self.alloc_bitmap(next) {
                    Ok(()) => Ok(next),
                    Err(e) => Err(PhysicalMemoryError::NoFrameAvailable),
                }
            },
            Err(e) => Err(e),
        }
    }

    /// Marks the frame at `address` as used.
    pub fn alloc_frame_address(&mut self, address: usize) -> (r: Result<(), PhysicalMemoryError>)
        requires
            address % 0x1000 == 0,
        ensures
            old(self).alloc_frame_address_post(final(self), address, r),
    {
        self.alloc_bitmap(address)
    }

    /// `alloc_frame` fails exactly when no frame is free, wherever the
    /// cursor stands; the frame it hands out was free before and is in
    /// use after, and no other frame changes.
    pub proof fn law_alloc_frame_fails_only_when_full(
        &self,
        post: &PhysicalMemory,
        r: Result<usize, PhysicalMemoryError>,
    )
        requires
            self.alloc_frame_post(post, r),
        ensures
            r is Err <==> self.full(),
            match r {
                Ok(address) => !self@.contains(address as int / 0x1000) && post@ == self@.insert(
                    address as int / 0x1000,
                ),
                Err(e) => *post == *self,
            },
    {
    }

    /// The frames in use fix every word of the bitmap: two bitmaps with
    /// the same frames in use and the same cursor are the same.
    pub proof fn law_frames_fix_the_words(&self, other: &PhysicalMemory)
        requires
            self@ == other@,
        ensures
            self.bitmap@ == other.bitmap@,
            self.cursor() == other.cursor() ==> *self == *other,
    {
        assert forall|i: int| 0 <= i < BITMAP_LEN implies self.bitmap@[i] == other.bitmap@[i] by {
            let v = self.bitmap[i];
            let w = other.bitmap[i];
            assert forall|o: u32| o < 32 implies (v & (0x8000_0000u32 >> o) != 0) == (w & (0x8000_0000u32
                >> o) != 0) by {
                let frame = i * 32 + o;
                assert(frame / 32 == i && frame % 32 == o);
                assert(self@.contains(frame) == self.frame_used(frame));
                assert(other@.contains(frame) == other.frame_used(frame));
            }
            lemma_same_bits(v, w, 32);
            lemma_leading_same_full(v, w);
        }
        assert(self.bitmap@ =~= other.bitmap@);
        assert(self.bitmap == other.bitmap);
    }

    /// Marking a frame and releasing it again gives back every word of
    /// the bitmap.
    pub proof fn law_alloc_then_free_restores(
        &self,
        marked: &PhysicalMemory,
        released: &PhysicalMemory,
        address: usize,
        first: Result<(), PhysicalMemoryError>,
        second: Result<(), PhysicalMemoryError>,
    )
        requires
            address % 0x1000 == 0,
            self.alloc_frame_address_post(marked, address, first),
            first is Ok,
            marked.free_frame_post(released, address, second),
        ensures
            second is Ok,
            released.bitmap@ == self.bitmap@,
            released@ == self@,
    {
        let frame = address as int / 0x1000;
        let word = self.bitmap[frame / 32];
        lemma_set_bit(word, (frame % 32) as u32, (frame % 32) as u32);
        lemma_set_then_clear(word, (frame % 32) as u32);
        assert(marked@.contains(frame));
        assert(released.bitmap@ =~= self.bitmap@);
        assert(released@ =~= self@);
    }

    /// A frame that was just marked cannot be marked again.
    pub proof fn law_second_alloc_is_refused(
        &self,
        marked: &PhysicalMemory,
        again: &PhysicalMemory,
        address: usize,
        first: Result<(), PhysicalMemoryError>,
        second: Result<(), PhysicalMemoryError>,
    )
        requires
            address % 0x1000 == 0,
            self.alloc_frame_address_post(marked, address, first),
            first is Ok,
            marked.alloc_frame_address_post(again, address, second),
        ensures
            second == Err::<(), PhysicalMemoryError>(PhysicalMemoryError::FrameAlreadyInUse),
            *again == *marked,
    {
        assert(marked@.contains(address as int / 0x1000));
    }
}

/// Where boot seeding stands after the `count` frames from `first` on:
/// the frames marked so far, and the error that ended the work, if any.
/// A frame beyond the bitmap ends it as out of memory, a frame that is
/// already marked as already in use.
pub open spec fn seed_run(used: Set<int>, first: int, count: int) -> (
    Set<int>,
    Option<PhysicalMemoryError>,
)
    decreases count,
{
    if count <= 0 {
        (used, None)
    } else if first >= N_FRAMES {
        (used, Some(PhysicalMemoryError::OutOfMemory))
    } else if used.contains(first) {
        (used, Some(PhysicalMemoryError::FrameAlreadyInUse))
    } else {
        seed_run(used.insert(first), first + 1, count - 1)
    }
}

/// Where boot seeding stands after a list of runs, each a first frame
/// and a count, taken in order up to the first error.
pub open spec fn seed_runs(used: Set<int>, runs: Seq<(int, int)>) -> (
    Set<int>,
    Option<PhysicalMemoryError>,
)
    decreases runs.len(),
{
    if runs.len() == 0 {
        (used, None)
    } else {
        let (after, error) = seed_run(used, runs[0].0, runs[0].1);
        if error is Some {
            (after, error)
        } else {
            seed_runs(after, runs.drop_first())
        }
    }
}

/// Where the bitmap's cursor stands after the run that `seed_run`
/// describes: on the word of the last frame that was marked, or where it
/// stood if none was.
pub open spec fn seed_run_cursor(used: Set<int>, cursor: int, first: int, count: int) -> int
    decreases count,
{
    if count <= 0 || first >= N_FRAMES || used.contains(first) {
        cursor
    } else {
        seed_run_cursor(used.insert(first), first / 32, first + 1, count - 1)
    }
}

/// Where the bitmap's cursor stands after the runs that `seed_runs`
/// describes.
pub open spec fn seed_runs_cursor(used: Set<int>, cursor: int, runs: Seq<(int, int)>) -> int
    decreases runs.len(),
{
    if runs.len() == 0 {
        cursor
    } else {
        let (after, error) = seed_run(used, runs[0].0, runs[0].1);
        let moved = seed_run_cursor(used, cursor, runs[0].0, runs[0].1);
        if error is Some {
            moved
        } else {
            seed_runs_cursor(after, moved, runs.drop_first())
        }
    }
}

/// Whether a memory map entry ends the walk: type 0, or a type from 8 on.
pub open spec fn is_terminator(entry: MultibootMemoryMapEntry) -> bool {
    entry._type == 0 || entry._type >= 8
}

/// The frames that a region covers, as far as the bitmap reaches: from
/// the frame of its base to the frame of its last byte.
pub open spec fn region_run(entry: MultibootMemoryMapEntry) -> (int, int) {
    let first = entry.base_addr as int / 0x1000;
    let end = (entry.base_addr + entry.length + 0xFFF) / 0x1000;
    let clipped = if end < N_FRAMES {
        end
    } else {
        N_FRAMES as int
    };
    if first < clipped {
        (first, clipped - first)
    } else {
        (first, 0)
    }
}

/// The runs that the memory map asks to be marked: one for every region
/// that is not available RAM, up to the first terminator.
pub open spec fn region_runs(map: Seq<MultibootMemoryMapEntry>) -> Seq<(int, int)>
    decreases map.len(),
{
    if map.len() == 0 || is_terminator(map[0]) {
        Seq::empty()
    } else if map[0]._type != AVAILABLE_RAM {
        seq![region_run(map[0])] + region_runs(map.drop_first())
    } else {
        region_runs(map.drop_first())
    }
}

/// What is marked whatever the memory map says: the first frame, the VGA
/// text buffer, the frames of the kernel image from the frame of its
/// start to the frame of its end, and the frame of the page directory.
pub open spec fn fixed_runs(kernel_start: usize, kernel_end: usize) -> Seq<(int, int)> {
    seq![
        (0int, 1int),
        (0xB8int, 1int),
        (kernel_start as int / 0x1000, kernel_end as int / 0x1000 - kernel_start as int / 0x1000 + 1),
        (PDA as int / 0x1000, 1int),
    ]
}

/// The contract of `init`: the runs of the memory map and the fixed runs
/// are marked in order; the first frame that lies beyond the bitmap or
/// is marked already ends the work with its error. At last the frame of
/// the boot information is marked unless it is already. The cursor
/// stands on the word of the frame that was marked last.
pub open spec fn init_post(
    pre: &PhysicalMemory,
    post: &PhysicalMemory,
    map: Seq<MultibootMemoryMapEntry>,
    kernel_start: usize,
    kernel_end: usize,
    multiboot_info: usize,
    r: Result<(), PhysicalMemoryError>,
) -> bool {
    let (after, error) = seed_runs(pre@, region_runs(map) + fixed_runs(kernel_start, kernel_end));
    let moved = seed_runs_cursor(
        pre@,
        pre.cursor(),
        region_runs(map) + fixed_runs(kernel_start, kernel_end),
    );
    let info = multiboot_info as int / 0x1000;
    match r {
        Ok(()) => {
            &&& error is None
            &&& post@ == if info < N_FRAMES {
                after.insert(info)
            } else {
                after
            }
            &&& post.cursor() == if info < N_FRAMES && !after.contains(info) {
                info / 32
            } else {
                moved
            }
        },
        Err(e) => error == Some(e) && post@ == after && post.cursor() == moved,
    }
}

/// Seeding only adds frames, and a run that went through without error
/// is marked whole.
pub proof fn lemma_seed_run(used: Set<int>, first: int, count: int, frame: int)
    requires
        used.contains(frame) || (seed_run(used, first, count).1 is None && first <= frame < first
            + count),
    ensures
        seed_run(used, first, count).0.contains(frame),
    decreases count,
{
    if count > 0 && first < N_FRAMES && !used.contains(first) {
        lemma_seed_run(used.insert(first), first + 1, count - 1, frame);
    }
}

/// Seeding only adds frames, and runs that went through without error
/// are all marked whole.
pub proof fn lemma_seed_runs(used: Set<int>, runs: Seq<(int, int)>, i: int, frame: int)
    requires
        used.contains(frame) || (seed_runs(used, runs).1 is None && 0 <= i < runs.len() && runs[i].0
            <= frame < runs[i].0 + runs[i].1),
    ensures
        seed_runs(used, runs).0.contains(frame),
    decreases runs.len(),
{
    if runs.len() > 0 {
        let (after, error) = seed_run(used, runs[0].0, runs[0].1);
        if used.contains(frame) {
            lemma_seed_run(used, runs[0].0, runs[0].1, frame);
            if error is None {
                lemma_seed_runs(after, runs.drop_first(), 0, frame);
            }
        } else {
            let rest = runs.drop_first();
            if i == 0 {
                lemma_seed_run(used, runs[0].0, runs[0].1, frame);
                lemma_seed_runs(after, rest, 0, frame);
            } else {
                assert(rest[i - 1] == runs[i]);
                lemma_seed_runs(after, rest, i - 1, frame);
            }
        }
    }
}

/// After boot seeding went through, the first frame, the VGA text
/// buffer, the frames of the kernel image, the frame of the page
/// directory and, where the bitmap covers it, the frame of the boot
/// information are in use.
pub proof fn law_boot_frames_are_marked(
    pre: &PhysicalMemory,
    post: &PhysicalMemory,
    map: Seq<MultibootMemoryMapEntry>,
    kernel_start: usize,
    kernel_end: usize,
    multiboot_info: usize,
    frame: int,
)
    requires
        init_post(
            pre,
            post,
            map,
            kernel_start,
            kernel_end,
            multiboot_info,
            Ok::<(), PhysicalMemoryError>(()),
        ),
        frame == 0 || frame == 0xB8 || frame == PDA as int / 0x1000 || (kernel_start as int / 0x1000
            <= frame <= kernel_end as int / 0x1000) || (frame == multiboot_info as int / 0x1000
            && frame < N_FRAMES) || pre@.contains(frame),
    ensures
        post@.contains(frame),
{
    let fixed = fixed_runs(kernel_start, kernel_end);
    let runs = region_runs(map) + fixed;
    let n = region_runs(map).len() as int;
    assert(runs[n] == fixed[0]);
    assert(runs[n + 1] == fixed[1]);
    assert(runs[n + 2] == fixed[2]);
    assert(runs[n + 3] == fixed[3]);
    if frame == 0 {
        lemma_seed_runs(pre@, runs, n, frame);
    } else if frame == 0xB8 {
        lemma_seed_runs(pre@, runs, n + 1, frame);
    } else if frame == PDA as int / 0x1000 {
        lemma_seed_runs(pre@, runs, n + 3, frame);
    } else if kernel_start as int / 0x1000 <= frame <= kernel_end as int / 0x1000 {
        lemma_seed_runs(pre@, runs, n + 2, frame);
    } else if pre@.contains(frame) {
        lemma_seed_runs(pre@, runs, 0, frame);
    }
}

/// Marks the `count` frames from frame number `first` on.
pub fn mark_run(bitmap: &mut PhysicalMemory, first: usize, count: usize) -> (r: Result<
    (),
    PhysicalMemoryError,
>)
    ensures
        final(bitmap)@ == seed_run(old(bitmap)@, first as int, count as int).0,
        final(bitmap).cursor() == seed_run_cursor(
            old(bitmap)@,
            old(bitmap).cursor(),
            first as int,
            count as int,
        ),
        match r {
            Ok(()) => seed_run(old(bitmap)@, first as int, count as int).1 is None,
            Err(e) => seed_run(old(bitmap)@, first as int, count as int).1 == Some(e),
        },
{
    if count == 0 {
        return Ok(());
    }
    if first >= N_FRAMES {
        return Err(PhysicalMemoryError::OutOfMemory);
    }
    let mut i: usize = 0;
    while i < count
        invariant
            i <= count,
            first < N_FRAMES,
            first + i <= N_FRAMES,
            seed_run(old(bitmap)@, first as int, count as int) == seed_run(
                bitmap@,
                first + i,
                count - i,
            ),
            seed_run_cursor(old(bitmap)@, old(bitmap).cursor(), first as int, count as int)
                == seed_run_cursor(bitmap@, bitmap.cursor(), first + i, count - i),
        decreases count - i,
    {
        let frame = first + i;
        if frame >= N_FRAMES {
            return Err(PhysicalMemoryError::OutOfMemory);
        }
        match bitmap.alloc_frame_address(frame * 0x1000) {
            Ok(()) => {},
            Err(e) => {
                return Err(e);
            },
        }
        i += 1;
    }
    Ok(())
}

proof fn lemma_seed_runs_step(used: Set<int>, cursor: int, run: (int, int), rest: Seq<(int, int)>)
    ensures
        seed_runs(used, seq![run] + rest) == if seed_run(used, run.0, run.1).1 is Some {
            seed_run(used, run.0, run.1)
        } else {
            seed_runs(seed_run(used, run.0, run.1).0, rest)
        },
        seed_runs_cursor(used, cursor, seq![run] + rest) == if seed_run(used, run.0, run.1).1
            is Some {
            seed_run_cursor(used, cursor, run.0, run.1)
        } else {
            seed_runs_cursor(
                seed_run(used, run.0, run.1).0,
                seed_run_cursor(used, cursor, run.0, run.1),
                rest,
            )
        },
{
    let all = seq![run] + rest;
    assert(all[0] == run);
    assert(all.drop_first() =~= rest);
}

/// Seeds the bitmap at boot from the memory map and the places that the
/// kernel itself occupies.
#[verifier::rlimit(60)]
pub fn init(
    bitmap: &mut PhysicalMemory,
    memory_map: &[MultibootMemoryMapEntry],
    kernel_start: usize,
    kernel_end: usize,
    multiboot_info: usize,
) -> (r: Result<(), PhysicalMemoryError>)
    ensures
        init_post(
            old(bitmap),
            final(bitmap),
            memory_map@,
            kernel_start,
            kernel_end,
            multiboot_info,
            r,
        ),
{
    let ghost fixed = fixed_runs(kernel_start, kernel_end);
    let ghost goal = seed_runs(old(bitmap)@, region_runs(memory_map@) + fixed);
    let ghost moved = seed_runs_cursor(
        old(bitmap)@,
        old(bitmap).cursor(),
        region_runs(memory_map@) + fixed,
    );
    let mut i: usize = 0;
    proof {
        assert(memory_map@.skip(0) =~= memory_map@);
    }
    while i < memory_map.len()
        invariant
            i <= memory_map@.len(),
            fixed == fixed_runs(kernel_start, kernel_end),
            goal == seed_runs(old(bitmap)@, region_runs(memory_map@) + fixed),
            goal == seed_runs(bitmap@, region_runs(memory_map@.skip(i as int)) + fixed),
            moved == seed_runs_cursor(
                old(bitmap)@,
                old(bitmap).cursor(),
                region_runs(memory_map@) + fixed,
            ),
            moved == seed_runs_cursor(
                bitmap@,
                bitmap.cursor(),
                region_runs(memory_map@.skip(i as int)) + fixed,
            ),
        ensures
            goal == seed_runs(bitmap@, fixed),
            moved == seed_runs_cursor(bitmap@, bitmap.cursor(), fixed),
        decreases memory_map@.len() - i,
    {
        let entry = memory_map[i];
        let ghost rest = memory_map@.skip(i as int);
        proof {
            assert(rest[0] == entry);
            assert(rest.drop_first() =~= memory_map@.skip(i + 1));
        }
        if entry._type == 0 || entry._type >= 8 {
            proof {
                assert(region_runs(rest) + fixed =~= fixed);
            }
            break;
        }
        if entry._type != AVAILABLE_RAM {
            let first = entry.base_addr / 0x1000;
            let end: u64 = match entry.base_addr.checked_add(entry.length) {
                Some(end) => if end % 0x1000 == 0 {
                    end / 0x1000
                } else {
                    end / 0x1000 + 1
                },
                None => N_FRAMES as u64,
            };
            let clipped: u64 = if end < N_FRAMES as u64 {
                end
            } else {
                N_FRAMES as u64
            };
            let count: u64 = if first < clipped {
                clipped - first
            } else {
                0
            };
            proof {
                assert(region_run(entry) == (first as int, count as int));
                assert(region_runs(rest) + fixed =~= seq![region_run(entry)] + (region_runs(
                    memory_map@.skip(i + 1),
                ) + fixed));
                lemma_seed_runs_step(
                    bitmap@,
                    bitmap.cursor(),
                    region_run(entry),
                    region_runs(memory_map@.skip(i + 1)) + fixed,
                );
            }
            if count > 0 {
                match mark_run(bitmap, first as usize, count as usize) {
                    Ok(()) => {},
                    Err(e) => {
                        return Err(e);
                    },
                }
            } else {
                proof {
                    reveal_with_fuel(seed_run, 1);
                    reveal_with_fuel(seed_run_cursor, 1);
                }
            }
        }
        i += 1;
    }
    proof {
        if i == memory_map@.len() {
            assert(region_runs(memory_map@.skip(i as int)) + fixed =~= fixed);
        }
        let r0 = (0int, 1int);
        let r1 = (0xB8int, 1int);
        let r2 = (
            kernel_start as int / 0x1000,
            kernel_end as int / 0x1000 - kernel_start as int / 0x1000 + 1,
        );
        let r3 = (PDA as int / 0x1000, 1int);
        assert(fixed =~= seq![r0] + seq![r1, r2, r3]);
        lemma_seed_runs_step(bitmap@, bitmap.cursor(), r0, seq![r1, r2, r3]);
    }
    match mark_run(bitmap, 0, 1) {
        Ok(()) => {},
        Err(e) => {
            return Err(e);
        },
    }
    proof {
        let r1 = (0xB8int, 1int);
        let r2 = (
            kernel_start as int / 0x1000,
            kernel_end as int / 0x1000 - kernel_start as int / 0x1000 + 1,
        );
        let r3 = (PDA as int / 0x1000, 1int);
        assert(seq![r1, r2, r3] =~= seq![r1] + seq![r2, r3]);
        lemma_seed_runs_step(bitmap@, bitmap.cursor(), r1, seq![r2, r3]);
    }
    match mark_run(bitmap, 0xB8, 1) {
        Ok(()) => {},
        Err(e) => {
            return Err(e);
        },
    }
    let kernel_first = kernel_start / 0x1000;
    let kernel_last = kernel_end / 0x1000;
    let kernel_count = if kernel_last >= kernel_first {
        kernel_last - kernel_first + 1
    } else {
        0
    };
    proof {
        let r2 = (
            kernel_start as int / 0x1000,
            kernel_end as int / 0x1000 - kernel_start as int / 0x1000 + 1,
        );
        let r3 = (PDA as int / 0x1000, 1int);
        assert(seq![r2, r3] =~= seq![r2] + seq![r3]);
        lemma_seed_runs_step(bitmap@, bitmap.cursor(), r2, seq![r3]);
        if kernel_count == 0 {
            reveal_with_fuel(seed_run, 1);
                    reveal_with_fuel(seed_run_cursor, 1);
        }
    }
    match mark_run(bitmap, kernel_first, kernel_count) {
        Ok(()) => {},
        Err(e) => {
            return Err(e);
        },
    }
    proof {
        let r3 = (PDA as int / 0x1000, 1int);
        assert(seq![r3] =~= seq![r3] + Seq::<(int, int)>::empty());
        lemma_seed_runs_step(bitmap@, bitmap.cursor(), r3, Seq::<(int, int)>::empty());
    }
    match mark_run(bitmap, PDA / 0x1000, 1) {
        Ok(()) => {},
        Err(e) => {
            return Err(e);
        },
    }
    let info_frame = multiboot_info / 0x1000;
    if bitmap.is_frame_free(info_frame) {
        match bitmap.alloc_frame_address(info_frame * 0x1000) {
            Ok(()) => {},
            Err(_) => {},
        }
    } else {
        proof {
            if info_frame < N_FRAMES {
                assert(bitmap@.insert(info_frame as int) =~= bitmap@);
            }
        }
    }
    Ok(())
}

} // verus!
