//! The core bump/watermark frame allocator: enumerates, in strictly
//! increasing order, every frame of the supplied memory areas that is not
//! claimed by the kernel image or the boot-info structure.

use vstd::prelude::*;
use vstd::arithmetic::div_mod::{lemma_div_is_ordered, lemma_div_is_strictly_smaller};

use crate::memory::{Frame, FrameAllocator, MemoryArea, PAGE_SIZE};

verus! {

/// Whether `a` can still supply a frame at or after cursor position `c`.
pub open spec fn eligible(a: MemoryArea, c: int) -> bool {
    a.length > 0 && a.last_frame() >= c
}

/// Hands out unique physical frames from the supplied areas, skipping the
/// two reserved ranges. A pure watermark allocator: the cursor
/// (`next_free_frame`) never moves backward, and nothing is ever reclaimed.
pub struct AreaFrameAllocator {
    next_free_frame: Frame,
    current_area: Option<MemoryArea>,
    areas: Vec<MemoryArea>,
    kernel_start: Frame,
    kernel_end: Frame,
    multiboot_start: Frame,
    multiboot_end: Frame,
}

impl AreaFrameAllocator {
    /// The allocation cursor: the next frame number to be considered.
    pub closed spec fn cursor(self) -> int {
        self.next_free_frame.spec_number()
    }

    /// The memory areas the allocator draws from.
    pub closed spec fn area_seq(self) -> Seq<MemoryArea> {
        self.areas@
    }

    /// First frame of the kernel image's reserved range.
    pub closed spec fn kernel_start_frame(self) -> int {
        self.kernel_start.spec_number()
    }

    /// Last frame of the kernel image's reserved range.
    pub closed spec fn kernel_end_frame(self) -> int {
        self.kernel_end.spec_number()
    }

    /// First frame of the boot-info structure's reserved range.
    pub closed spec fn multiboot_start_frame(self) -> int {
        self.multiboot_start.spec_number()
    }

    /// Last frame of the boot-info structure's reserved range.
    pub closed spec fn multiboot_end_frame(self) -> int {
        self.multiboot_end.spec_number()
    }

    /// The area currently being consumed, or `None` once exhausted.
    pub closed spec fn current(self) -> Option<MemoryArea> {
        self.current_area
    }

    /// Both allocators were built over the same areas and reserved ranges.
    pub open spec fn same_config(self, other: Self) -> bool {
        &&& self.area_seq() == other.area_seq()
        &&& self.kernel_start_frame() == other.kernel_start_frame()
        &&& self.kernel_end_frame() == other.kernel_end_frame()
        &&& self.multiboot_start_frame() == other.multiboot_start_frame()
        &&& self.multiboot_end_frame() == other.multiboot_end_frame()
    }

    /// Frame `f` lies in one of the two reserved ranges (both inclusive).
    pub open spec fn reserved_frame(self, f: int) -> bool {
        ||| self.kernel_start_frame() <= f <= self.kernel_end_frame()
        ||| self.multiboot_start_frame() <= f <= self.multiboot_end_frame()
    }

    /// Frame `f` lies in one of the supplied memory areas.
    pub open spec fn in_areas(self, f: int) -> bool {
        exists|i: int| 0 <= i < self.area_seq().len() && #[trigger] self.area_seq()[i].covers(f)
    }

    /// Frame `f` may legitimately be handed out: it lies in an area and in
    /// neither reserved range.
    pub open spec fn allocatable(self, f: int) -> bool {
        self.in_areas(f) && !self.reserved_frame(f)
    }

    /// No frame at or after cursor position `c` can ever be handed out.
    pub open spec fn exhausted_from(self, c: int) -> bool {
        forall|f: int| f >= c ==> !self.allocatable(f)
    }

    /// One more than the largest representable frame number.
    pub open spec fn frame_limit() -> int {
        usize::MAX as int / PAGE_SIZE as int + 1
    }

    /// Configuration part of well-formedness: areas free of address
    /// wraparound, reserved ranges ordered, cursor and bounds in range.
    pub closed spec fn base_wf(self) -> bool {
        &&& forall|i: int| 0 <= i < self.areas@.len() ==> #[trigger] self.areas@[i].wf()
        &&& self.kernel_start_frame() <= self.kernel_end_frame()
        &&& self.kernel_end_frame() < Self::frame_limit()
        &&& self.multiboot_start_frame() <= self.multiboot_end_frame()
        &&& self.multiboot_end_frame() < Self::frame_limit()
        &&& self.cursor() <= Self::frame_limit()
    }

    /// What one `allocate_frame` call does: the configuration is kept, the
    /// cursor never moves backward, and the result is either the least
    /// allocatable frame at or after the old cursor (with the cursor
    /// advanced just past it), or `None` exactly when no allocatable frame
    /// at or after the old cursor exists.
    pub open spec fn alloc_step(pre: Self, post: Self, r: Option<Frame>) -> bool {
        &&& post.same_config(pre)
        &&& pre.cursor() <= post.cursor()
        &&& match r {
            Some(f) => {
                &&& pre.cursor() <= f.spec_number()
                &&& pre.allocatable(f.spec_number())
                &&& forall|g: int| pre.cursor() <= g < f.spec_number() ==> !pre.allocatable(g)
                &&& post.cursor() == f.spec_number() + 1
            },
            None => pre.exhausted_from(pre.cursor()),
        }
    }

    /// Number of allocatable frames in `[lo, hi)`.
    pub open spec fn count_allocatable_in(self, lo: int, hi: int) -> nat
        decreases hi - lo,
    {
        if lo >= hi {
            0
        } else {
            (if self.allocatable(lo) { 1nat } else { 0nat }) + self.count_allocatable_in(lo + 1, hi)
        }
    }

    /// Number of allocatable frames at or after cursor position `c`: the
    /// total the allocator can still hand out from there.
    pub open spec fn count_from(self, c: int) -> nat {
        self.count_allocatable_in(c, Self::frame_limit())
    }

    /// Whether a frame is allocatable depends only on the configuration,
    /// never on the cursor.
    pub proof fn lemma_allocatable_same_config(s1: Self, s2: Self, f: int)
        requires
            s1.same_config(s2),
        ensures
            s1.allocatable(f) == s2.allocatable(f),
    {
        if s1.in_areas(f) {
            let j = choose|j: int|
                0 <= j < s1.area_seq().len() && #[trigger] s1.area_seq()[j].covers(f);
            assert(s2.area_seq()[j].covers(f));
        }
        if s2.in_areas(f) {
            let j = choose|j: int|
                0 <= j < s2.area_seq().len() && #[trigger] s2.area_seq()[j].covers(f);
            assert(s1.area_seq()[j].covers(f));
        }
    }

    /// Every allocatable frame number is representable: it lies below
    /// `frame_limit`.
    proof fn lemma_allocatable_below_limit(self, f: int)
        requires
            self.base_wf(),
            self.allocatable(f),
        ensures
            f < Self::frame_limit(),
    {
        let j = choose|j: int|
            0 <= j < self.area_seq().len() && #[trigger] self.area_seq()[j].covers(f);
        assert(self.areas@[j].wf());
        lemma_div_is_ordered(
            self.areas@[j].base_addr + self.areas@[j].length - 1,
            usize::MAX as int,
            PAGE_SIZE as int,
        );
    }

    /// A stretch without allocatable frames contributes nothing to a count.
    proof fn lemma_count_skip(self, lo: int, mid: int, hi: int)
        requires
            lo <= mid <= hi,
            forall|g: int| lo <= g < mid ==> !self.allocatable(g),
        ensures
            self.count_allocatable_in(lo, hi) == self.count_allocatable_in(mid, hi),
        decreases mid - lo,
    {
        if lo < mid {
            self.lemma_count_skip(lo + 1, mid, hi);
        }
    }

    /// With nothing allocatable in `[lo, hi)`, the count is zero.
    proof fn lemma_count_zero(self, lo: int, hi: int)
        requires
            forall|g: int| lo <= g < hi ==> !self.allocatable(g),
        ensures
            self.count_allocatable_in(lo, hi) == 0,
        decreases hi - lo,
    {
        if lo < hi {
            self.lemma_count_zero(lo + 1, hi);
        }
    }

    /// A count over `[lo, hi)` never exceeds the width of the window.
    proof fn lemma_count_le(self, lo: int, hi: int)
        ensures
            self.count_allocatable_in(lo, hi) <= (if hi >= lo { hi - lo } else { 0int }),
        decreases hi - lo,
    {
        if lo < hi {
            self.lemma_count_le(lo + 1, hi);
        }
    }

    /// Equal configurations count equally.
    proof fn lemma_count_same_config(s1: Self, s2: Self, lo: int, hi: int)
        requires
            s1.same_config(s2),
        ensures
            s1.count_allocatable_in(lo, hi) == s2.count_allocatable_in(lo, hi),
        decreases hi - lo,
    {
        if lo < hi {
            Self::lemma_allocatable_same_config(s1, s2, lo);
            Self::lemma_count_same_config(s1, s2, lo + 1, hi);
        }
    }

    /// With nothing allocatable below cursor position `c` — as construction
    /// guarantees — the remaining count from `c` is the total allocatable
    /// frame count.
    pub proof fn lemma_count_from_fresh(self, c: int)
        requires
            0 <= c,
            forall|g: int| 0 <= g < c ==> !self.allocatable(g),
        ensures
            self.count_from(c) == self.count_from(0),
    {
        if c <= Self::frame_limit() {
            self.lemma_count_skip(0, c, Self::frame_limit());
        } else {
            self.lemma_count_zero(c, Self::frame_limit());
            self.lemma_count_zero(0, Self::frame_limit());
        }
    }

    /// Drains the allocator, counting the frames it can still hand out:
    /// exactly `count_from(cursor)` allocations succeed, and the allocator
    /// is left exhausted.
    pub fn count_remaining_frames(&mut self) -> (n: usize)
        requires
            old(self).wf(),
        ensures
            final(self).wf(),
            final(self).same_config(*old(self)),
            n as nat == old(self).count_from(old(self).cursor()),
            final(self).exhausted_from(final(self).cursor()),
    {
        proof {
            old(self).lemma_count_le(old(self).cursor(), Self::frame_limit());
        }
        let mut n: usize = 0;
        loop
            invariant
                self.wf(),
                self.same_config(*old(self)),
                old(self).cursor() <= self.cursor(),
                old(self).count_from(old(self).cursor()) <= Self::frame_limit(),
                n as nat + self.count_from(self.cursor())
                    == old(self).count_from(old(self).cursor()),
            decreases self.count_from(self.cursor()),
        {
            let ghost pre = *self;
            match self.allocate_frame() {
                Some(f) => {
                    proof {
                        pre.lemma_allocatable_below_limit(f.spec_number());
                        pre.lemma_count_skip(pre.cursor(), f.spec_number(), Self::frame_limit());
                        Self::lemma_count_same_config(
                            pre,
                            *self,
                            f.spec_number() + 1,
                            Self::frame_limit(),
                        );
                        assert(pre.count_from(pre.cursor())
                            == 1 + self.count_from(self.cursor()));
                    }
                    n = n + 1;
                },
                None => {
                    proof {
                        pre.lemma_count_zero(pre.cursor(), Self::frame_limit());
                        assert forall|g: int| self.cursor() <= g
                            implies !self.allocatable(g) by {
                            Self::lemma_allocatable_same_config(pre, *self, g);
                        }
                    }
                    return n;
                },
            }
        }
    }

    /// Termination measure for the allocation retry loop: the cursor can
    /// only advance, and an exhausted current area is left at most once
    /// per cursor position.
    closed spec fn measure(self) -> int {
        2 * (Self::frame_limit() + 1 - self.cursor()) + (match self.current_area {
            Some(a) => if self.cursor() > a.last_frame() { 1int } else { 0int },
            None => 0int,
        })
    }

    /// Builds an allocator over the given memory areas, reserving the
    /// frames of `[kernel_start, kernel_end]` and
    /// `[multiboot_start, multiboot_end]` (byte addresses, truncated to
    /// their containing frames), with the cursor on the first frame of the
    /// lowest usable area.
    pub fn new(
        kernel_start: usize,
        kernel_end: usize,
        multiboot_start: usize,
        multiboot_end: usize,
        memory_areas: Vec<MemoryArea>,
    ) -> (r: AreaFrameAllocator)
        requires
            kernel_start <= kernel_end,
            multiboot_start <= multiboot_end,
            forall|i: int| 0 <= i < memory_areas@.len() ==> #[trigger] memory_areas@[i].wf(),
        ensures
            r.wf(),
            r.area_seq() == memory_areas@,
            r.kernel_start_frame() == kernel_start as int / PAGE_SIZE as int,
            r.kernel_end_frame() == kernel_end as int / PAGE_SIZE as int,
            r.multiboot_start_frame() == multiboot_start as int / PAGE_SIZE as int,
            r.multiboot_end_frame() == multiboot_end as int / PAGE_SIZE as int,
            0 <= r.cursor(),
            forall|g: int| 0 <= g < r.cursor() ==> !r.in_areas(g),
    {
        let mut allocator = AreaFrameAllocator {
            next_free_frame: Frame::from_address(0),
            current_area: None,
            areas: memory_areas,
            kernel_start: Frame::from_address(kernel_start),
            kernel_end: Frame::from_address(kernel_end),
            multiboot_start: Frame::from_address(multiboot_start),
            multiboot_end: Frame::from_address(multiboot_end),
        };
        proof {
            lemma_div_is_ordered(kernel_start as int, kernel_end as int, PAGE_SIZE as int);
            lemma_div_is_ordered(multiboot_start as int, multiboot_end as int, PAGE_SIZE as int);
            lemma_div_is_ordered(kernel_end as int, usize::MAX as int, PAGE_SIZE as int);
            lemma_div_is_ordered(multiboot_end as int, usize::MAX as int, PAGE_SIZE as int);
        }
        let ghost before = allocator;
        allocator.next_area();
        proof {
            assert forall|g: int| 0 <= g < allocator.cursor()
                implies !allocator.in_areas(g) by {
                if allocator.in_areas(g) {
                    let j = choose|j: int|
                        0 <= j < allocator.area_seq().len()
                            && #[trigger] allocator.area_seq()[j].covers(g);
                    assert(before.areas@[j].covers(g));
                    assert(before.in_areas(g));
                }
            }
        }
        allocator
    }

    /// Re-runs area selection: picks, among the areas that can still
    /// supply a frame at or after the cursor, the one with the smallest
    /// base address, and advances the cursor to its start if the cursor
    /// lies before it; records exhaustion when no such area remains.
    fn next_area(&mut self)
        requires
            old(self).base_wf(),
        ensures
            final(self).wf(),
            final(self).same_config(*old(self)),
            old(self).cursor() <= final(self).cursor(),
            forall|g: int| old(self).cursor() <= g < final(self).cursor()
                ==> !old(self).in_areas(g),
            final(self).current() matches Some(a) ==> a.covers(final(self).cursor()),
            final(self).current() is None ==> final(self).cursor() == old(self).cursor(),
    {
        let ghost orig = *self;
        let cursor_num: usize = self.next_free_frame.number();
        let mut best: Option<MemoryArea> = None;
        let mut i: usize = 0;
        while i < self.areas.len()
            invariant
                *self == orig,
                orig.base_wf(),
                cursor_num as int == orig.cursor(),
                0 <= i as int <= orig.area_seq().len(),
                match best {
                    Some(b) => {
                        &&& exists|j: int|
                            0 <= j < i as int && #[trigger] orig.area_seq()[j] == b
                        &&& eligible(b, orig.cursor())
                        &&& forall|j: int|
                            0 <= j < i as int && eligible(#[trigger] orig.area_seq()[j], orig.cursor())
                                ==> b.base_addr <= orig.area_seq()[j].base_addr
                    },
                    None => forall|j: int| 0 <= j < i as int
                        ==> !eligible(#[trigger] orig.area_seq()[j], orig.cursor()),
                },
            decreases orig.area_seq().len() - i as int,
        {
            let area = self.areas[i];
            proof {
                assert(orig.area_seq()[i as int].wf());
            }
            if area.length > 0 {
                let last_addr: usize = area.base_addr + (area.length - 1);
                let last: usize = last_addr / PAGE_SIZE;
                if last >= cursor_num {
                    best = match best {
                        None => Some(area),
                        Some(b) => if area.base_addr < b.base_addr {
                            Some(area)
                        } else {
                            Some(b)
                        },
                    };
                }
            }
            i += 1;
        }
        self.current_area = best;
        if let Some(area) = self.current_area {
            proof {
                let j = choose|j: int|
                    0 <= j < orig.areas@.len() && #[trigger] orig.areas@[j] == area;
                assert(self.areas@[j] == area);
                assert(self.areas@[j].wf());
                lemma_div_is_ordered(area.base_addr as int, usize::MAX as int, PAGE_SIZE as int);
                // a non-empty area's last frame is at or after its first
                lemma_div_is_ordered(
                    area.base_addr as int,
                    area.base_addr + area.length - 1,
                    PAGE_SIZE as int,
                );
            }
            let start: usize = area.base_addr / PAGE_SIZE;
            if self.next_free_frame.number() < start {
                self.next_free_frame = Frame::from_number(start);
                proof {
                    // no area holds a frame between the old cursor and the
                    // chosen area's start: such an area would be eligible
                    // and start below the minimal base address chosen
                    assert forall|g: int| orig.cursor() <= g < self.cursor()
                        implies !orig.in_areas(g) by {
                        if orig.in_areas(g) {
                            let j = choose|j: int|
                                0 <= j < orig.area_seq().len()
                                    && #[trigger] orig.area_seq()[j].covers(g);
                            assert(eligible(orig.areas@[j], orig.cursor()));
                            lemma_div_is_ordered(
                                area.base_addr as int,
                                orig.areas@[j].base_addr as int,
                                PAGE_SIZE as int,
                            );
                        }
                    }
                }
            }
            proof {
                let j = choose|j: int|
                    0 <= j < orig.areas@.len() && #[trigger] orig.areas@[j] == area;
                assert(self.areas@[j] == area);
                assert(area.covers(self.cursor()));
            }
        } else {
            proof {
                assert forall|i: int| 0 <= i < self.areas@.len()
                    implies !eligible(#[trigger] self.areas@[i], self.cursor()) by {
                    assert(orig.areas@[i] == self.areas@[i]);
                }
            }
        }
    }
}

impl FrameAllocator for AreaFrameAllocator {
    /// Full well-formedness: on top of `base_wf`, the current area (when
    /// present) is one of the supplied areas, is non-empty, and starts at
    /// or before the cursor; when absent, no area can supply a frame at or
    /// after the cursor.
    closed spec fn wf(&self) -> bool {
        &&& self.base_wf()
        &&& match self.current_area {
            Some(a) => {
                &&& exists|i: int| 0 <= i < self.areas@.len() && #[trigger] self.areas@[i] == a
                &&& a.length > 0
                &&& a.start_frame() <= self.cursor()
            },
            None => forall|i: int| 0 <= i < self.areas@.len()
                ==> !eligible(#[trigger] self.areas@[i], self.cursor()),
        }
    }

    /// Returns the lowest not-yet-considered frame that lies in a supplied
    /// area and in neither reserved range, advancing the cursor past it;
    /// returns `None` exactly when no such frame remains.
    fn allocate_frame(&mut self) -> (r: Option<Frame>)
        ensures
            Self::alloc_step(*old(self), *final(self), r),
    {
        loop
            invariant
                self.wf(),
                self.same_config(*old(self)),
                old(self).cursor() <= self.cursor(),
                forall|g: int| old(self).cursor() <= g < self.cursor()
                    ==> !old(self).allocatable(g),
            decreases self.measure(),
        {
            let ghost orig = *old(self);
            let ghost pre = *self;
            match self.current_area {
                None => {
                    proof {
                        assert forall|f: int| f >= orig.cursor()
                            implies !orig.allocatable(f) by {
                            if f >= pre.cursor() && orig.in_areas(f) {
                                let j = choose|j: int|
                                    0 <= j < orig.area_seq().len()
                                        && #[trigger] orig.area_seq()[j].covers(f);
                                assert(pre.areas@[j] == orig.areas@[j]);
                                assert(eligible(pre.areas@[j], pre.cursor()));
                            }
                        }
                    }
                    return None;
                },
                Some(area) => {
                    proof {
                        let i = choose|i: int|
                            0 <= i < pre.areas@.len() && #[trigger] pre.areas@[i] == area;
                        assert(pre.areas@[i].wf());
                    }
                    let last_addr: usize = area.base_addr + (area.length - 1);
                    let last: usize = last_addr / PAGE_SIZE;
                    let cur: usize = self.next_free_frame.number();
                    proof {
                        lemma_div_is_ordered(last_addr as int, usize::MAX as int, PAGE_SIZE as int);
                    }
                    if cur > last {
                        self.next_area();
                        proof {
                            assert forall|g: int| orig.cursor() <= g < self.cursor()
                                implies !orig.allocatable(g) by {
                                if g >= pre.cursor() && orig.in_areas(g) {
                                    let j = choose|j: int|
                                        0 <= j < orig.area_seq().len()
                                            && #[trigger] orig.area_seq()[j].covers(g);
                                    assert(pre.areas@[j].covers(g));
                                    assert(pre.in_areas(g));
                                }
                            }
                        }
                    } else if cur >= self.kernel_start.number() && cur <= self.kernel_end.number() {
                        proof {
                            lemma_div_is_strictly_smaller(usize::MAX as int, PAGE_SIZE as int);
                        }
                        let next = self.kernel_end.number() + 1;
                        self.next_free_frame = Frame::from_number(next);
                        proof {
                            let i = choose|i: int|
                                0 <= i < pre.areas@.len() && #[trigger] pre.areas@[i] == area;
                            assert(self.areas@[i] == area);
                            // every frame skipped here lies in the kernel range
                            assert forall|g: int| orig.cursor() <= g < self.cursor()
                                implies !orig.allocatable(g) by {
                                if g >= pre.cursor() {
                                    assert(orig.reserved_frame(g));
                                }
                            }
                        }
                    } else if cur >= self.multiboot_start.number()
                        && cur <= self.multiboot_end.number() {
                        proof {
                            lemma_div_is_strictly_smaller(usize::MAX as int, PAGE_SIZE as int);
                        }
                        let next = self.multiboot_end.number() + 1;
                        self.next_free_frame = Frame::from_number(next);
                        proof {
                            let i = choose|i: int|
                                0 <= i < pre.areas@.len() && #[trigger] pre.areas@[i] == area;
                            assert(self.areas@[i] == area);
                            // every frame skipped here lies in the boot-info range
                            assert forall|g: int| orig.cursor() <= g < self.cursor()
                                implies !orig.allocatable(g) by {
                                if g >= pre.cursor() {
                                    assert(orig.reserved_frame(g));
                                }
                            }
                        }
                    } else {
                        let frame = Frame::from_number(cur);
                        self.next_free_frame = Frame::from_number(cur + 1);
                        proof {
                            let i = choose|i: int|
                                0 <= i < pre.areas@.len() && #[trigger] pre.areas@[i] == area;
                            assert(self.areas@[i] == area);
                            assert(orig.areas@[i] == area);
                            assert(orig.area_seq()[i].covers(cur as int));
                            assert(orig.in_areas(cur as int));
                            assert(!orig.reserved_frame(cur as int));
                        }
                        return Some(frame);
                    }
                },
            }
        }
    }

    /// Frame reclamation is a deliberate, documented gap of this design:
    /// the allocator is a pure watermark and never takes a frame back.
    /// This call therefore reclaims nothing and leaves the allocator
    /// unchanged.
    fn deallocate_frame(&mut self) -> (r: Option<Frame>)
        ensures
            r is None,
            *final(self) == *old(self),
    {
        None
    }
}

/// A chain of consecutive `allocate_frame` transitions with the given
/// results: `states[i]` steps to `states[i + 1]` returning `results[i]`.
pub open spec fn alloc_run(states: Seq<AreaFrameAllocator>, results: Seq<Option<Frame>>) -> bool {
    &&& states.len() == results.len() + 1
    &&& forall|i: int|
        #![trigger states[i], results[i]]
        0 <= i < results.len()
            ==> AreaFrameAllocator::alloc_step(states[i], states[i + 1], results[i])
}

/// A chain of consecutive `allocate_frame` transitions in which every call
/// succeeds, returning the given frames.
pub open spec fn successful_run(states: Seq<AreaFrameAllocator>, frames: Seq<Frame>) -> bool {
    &&& states.len() == frames.len() + 1
    &&& forall|i: int|
        #![trigger states[i], frames[i]]
        0 <= i < frames.len()
            ==> AreaFrameAllocator::alloc_step(states[i], states[i + 1], Some(frames[i]))
}

/// Along a successful run the cursor never moves backward.
proof fn lemma_cursor_chain(states: Seq<AreaFrameAllocator>, frames: Seq<Frame>, i: int, j: int)
    requires
        successful_run(states, frames),
        0 <= i <= j < states.len(),
    ensures
        states[i].cursor() <= states[j].cursor(),
    decreases j - i,
{
    if i < j {
        lemma_cursor_chain(states, frames, i, j - 1);
        assert(AreaFrameAllocator::alloc_step(states[j - 1], states[j], Some(frames[j - 1])));
    }
}

/// Along a successful run the configuration never changes.
proof fn lemma_config_chain(states: Seq<AreaFrameAllocator>, frames: Seq<Frame>, j: int)
    requires
        successful_run(states, frames),
        0 <= j < states.len(),
    ensures
        states[j].same_config(states[0]),
    decreases j,
{
    if j > 0 {
        lemma_config_chain(states, frames, j - 1);
        assert(AreaFrameAllocator::alloc_step(states[j - 1], states[j], Some(frames[j - 1])));
    }
}

/// Monotonicity: successive successful allocations return strictly
/// increasing frame numbers.
pub proof fn lemma_monotonic(states: Seq<AreaFrameAllocator>, frames: Seq<Frame>)
    requires
        successful_run(states, frames),
    ensures
        forall|i: int, j: int| 0 <= i < j < frames.len()
            ==> #[trigger] frames[i].spec_number() < #[trigger] frames[j].spec_number(),
{
    assert forall|i: int, j: int| 0 <= i < j < frames.len()
        implies #[trigger] frames[i].spec_number() < #[trigger] frames[j].spec_number() by {
        assert(AreaFrameAllocator::alloc_step(states[i], states[i + 1], Some(frames[i])));
        assert(AreaFrameAllocator::alloc_step(states[j], states[j + 1], Some(frames[j])));
        lemma_cursor_chain(states, frames, i + 1, j);
    }
}

/// Uniqueness: over any successful run, the returned frame numbers are
/// pairwise distinct.
pub proof fn lemma_unique(states: Seq<AreaFrameAllocator>, frames: Seq<Frame>)
    requires
        successful_run(states, frames),
    ensures
        forall|i: int, j: int|
            0 <= i < frames.len() && 0 <= j < frames.len() && i != j
                ==> #[trigger] frames[i].spec_number() != #[trigger] frames[j].spec_number(),
{
    lemma_monotonic(states, frames);
}

/// Reserved-range exclusion: no frame a successful run returns lies in
/// either reserved range of the configuration.
pub proof fn lemma_reserved_excluded(states: Seq<AreaFrameAllocator>, frames: Seq<Frame>)
    requires
        successful_run(states, frames),
    ensures
        forall|i: int| 0 <= i < frames.len()
            ==> !states[0].reserved_frame(#[trigger] frames[i].spec_number()),
{
    assert forall|i: int| 0 <= i < frames.len()
        implies !states[0].reserved_frame(#[trigger] frames[i].spec_number()) by {
        assert(AreaFrameAllocator::alloc_step(states[i], states[i + 1], Some(frames[i])));
        lemma_config_chain(states, frames, i);
    }
}

/// Each successful step removes exactly one frame from the remaining
/// count.
proof fn lemma_run_count(states: Seq<AreaFrameAllocator>, frames: Seq<Frame>)
    requires
        successful_run(states, frames),
        states[0].base_wf(),
    ensures
        states[0].count_from(states[0].cursor())
            == frames.len()
                + states[states.len() - 1].count_from(states[states.len() - 1].cursor()),
    decreases frames.len(),
{
    if frames.len() > 0 {
        let s0 = states[0];
        let s1 = states[1];
        let f = frames[0];
        assert(AreaFrameAllocator::alloc_step(s0, s1, Some(f)));
        s0.lemma_allocatable_below_limit(f.spec_number());
        s0.lemma_count_skip(s0.cursor(), f.spec_number(), AreaFrameAllocator::frame_limit());
        AreaFrameAllocator::lemma_count_same_config(
            s0,
            s1,
            f.spec_number() + 1,
            AreaFrameAllocator::frame_limit(),
        );
        assert(s0.count_from(s0.cursor()) == 1 + s1.count_from(s1.cursor()));
        let tail_states = states.subrange(1, states.len() as int);
        let tail_frames = frames.subrange(1, frames.len() as int);
        assert forall|i: int| 0 <= i < tail_frames.len()
            implies #[trigger] AreaFrameAllocator::alloc_step(
                tail_states[i],
                tail_states[i + 1],
                Some(tail_frames[i]),
            ) by {
            assert(AreaFrameAllocator::alloc_step(states[i + 1], states[i + 2], Some(frames[i + 1])));
        }
        assert(s1.base_wf()) by {
            assert forall|i: int| 0 <= i < s1.areas@.len()
                implies #[trigger] s1.areas@[i].wf() by {
                assert(s1.areas@[i] == s0.areas@[i]);
            }
        }
        lemma_run_count(tail_states, tail_frames);
        assert(tail_states[tail_states.len() - 1] == states[states.len() - 1]);
    }
}

/// Exhaustion correctness: when a successful run of a well-formed
/// allocator is followed by one exhausted call, the run's length is
/// exactly the number of allocatable frames the starting state still had.
pub proof fn lemma_exhaustion(
    states: Seq<AreaFrameAllocator>,
    frames: Seq<Frame>,
    post: AreaFrameAllocator,
)
    requires
        successful_run(states, frames),
        states[0].wf(),
        AreaFrameAllocator::alloc_step(states[states.len() - 1], post, None),
    ensures
        frames.len() == states[0].count_from(states[0].cursor()),
{
    lemma_run_count(states, frames);
    let last = states[states.len() - 1];
    last.lemma_count_zero(last.cursor(), AreaFrameAllocator::frame_limit());
}

/// From an exhausted state, every further call signals exhaustion.
proof fn lemma_exhausted_all_none(states: Seq<AreaFrameAllocator>, results: Seq<Option<Frame>>)
    requires
        alloc_run(states, results),
        states[0].exhausted_from(states[0].cursor()),
    ensures
        forall|i: int| 0 <= i < results.len() ==> #[trigger] results[i] is None,
    decreases results.len(),
{
    if results.len() > 0 {
        assert(AreaFrameAllocator::alloc_step(states[0], states[1], results[0]));
        if results[0] is Some {
            let f = results[0]->Some_0;
            assert(states[0].allocatable(f.spec_number()));
        }
        assert forall|g: int| states[1].cursor() <= g
            implies !states[1].allocatable(g) by {
            AreaFrameAllocator::lemma_allocatable_same_config(states[0], states[1], g);
        }
        let tail_states = states.subrange(1, states.len() as int);
        let tail_results = results.subrange(1, results.len() as int);
        assert forall|i: int| 0 <= i < tail_results.len()
            implies #[trigger] AreaFrameAllocator::alloc_step(
                tail_states[i],
                tail_states[i + 1],
                tail_results[i],
            ) by {
            assert(AreaFrameAllocator::alloc_step(states[i + 1], states[i + 2], results[i + 1]));
        }
        lemma_exhausted_all_none(tail_states, tail_results);
        assert forall|i: int| 0 <= i < results.len() implies #[trigger] results[i] is None by {
            if i > 0 {
                assert(tail_results[i - 1] is None);
            }
        }
    }
}

/// Deterministic replay: two runs of equal length whose starting states
/// share the configuration and the cursor return identical result
/// sequences.
pub proof fn lemma_deterministic_replay(
    ss: Seq<AreaFrameAllocator>,
    rs: Seq<Option<Frame>>,
    ts: Seq<AreaFrameAllocator>,
    qs: Seq<Option<Frame>>,
)
    requires
        alloc_run(ss, rs),
        alloc_run(ts, qs),
        rs.len() == qs.len(),
        ss[0].same_config(ts[0]),
        ss[0].cursor() == ts[0].cursor(),
    ensures
        rs == qs,
    decreases rs.len(),
{
    if rs.len() == 0 {
        assert(rs =~= qs);
    } else {
        assert(AreaFrameAllocator::alloc_step(ss[0], ss[1], rs[0]));
        assert(AreaFrameAllocator::alloc_step(ts[0], ts[1], qs[0]));
        let c = ss[0].cursor();
        match (rs[0], qs[0]) {
            (Some(f), Some(g)) => {
                AreaFrameAllocator::lemma_allocatable_same_config(ss[0], ts[0], f.spec_number());
                AreaFrameAllocator::lemma_allocatable_same_config(ts[0], ss[0], g.spec_number());
                assert(f.spec_number() == g.spec_number());
                Frame::lemma_frame_eq(f, g);
                let tail_ss = ss.subrange(1, ss.len() as int);
                let tail_rs = rs.subrange(1, rs.len() as int);
                let tail_ts = ts.subrange(1, ts.len() as int);
                let tail_qs = qs.subrange(1, qs.len() as int);
                assert forall|i: int| 0 <= i < tail_rs.len()
                    implies #[trigger] AreaFrameAllocator::alloc_step(
                        tail_ss[i],
                        tail_ss[i + 1],
                        tail_rs[i],
                    ) by {
                    assert(AreaFrameAllocator::alloc_step(ss[i + 1], ss[i + 2], rs[i + 1]));
                }
                assert forall|i: int| 0 <= i < tail_qs.len()
                    implies #[trigger] AreaFrameAllocator::alloc_step(
                        tail_ts[i],
                        tail_ts[i + 1],
                        tail_qs[i],
                    ) by {
                    assert(AreaFrameAllocator::alloc_step(ts[i + 1], ts[i + 2], qs[i + 1]));
                }
                lemma_deterministic_replay(tail_ss, tail_rs, tail_ts, tail_qs);
                assert(rs =~= qs) by {
                    assert forall|i: int| 0 <= i < rs.len() implies rs[i] == qs[i] by {
                        if i > 0 {
                            assert(tail_rs[i - 1] == tail_qs[i - 1]);
                        }
                    }
                }
            },
            (Some(f), None) => {
                AreaFrameAllocator::lemma_allocatable_same_config(ss[0], ts[0], f.spec_number());
                assert(ts[0].allocatable(f.spec_number()));
                assert(false);
            },
            (None, Some(g)) => {
                AreaFrameAllocator::lemma_allocatable_same_config(ts[0], ss[0], g.spec_number());
                assert(ss[0].allocatable(g.spec_number()));
                assert(false);
            },
            (None, None) => {
                let tail_ss = ss.subrange(1, ss.len() as int);
                let tail_rs = rs.subrange(1, rs.len() as int);
                let tail_ts = ts.subrange(1, ts.len() as int);
                let tail_qs = qs.subrange(1, qs.len() as int);
                assert forall|i: int| 0 <= i < tail_rs.len()
                    implies #[trigger] AreaFrameAllocator::alloc_step(
                        tail_ss[i],
                        tail_ss[i + 1],
                        tail_rs[i],
                    ) by {
                    assert(AreaFrameAllocator::alloc_step(ss[i + 1], ss[i + 2], rs[i + 1]));
                }
                assert forall|i: int| 0 <= i < tail_qs.len()
                    implies #[trigger] AreaFrameAllocator::alloc_step(
                        tail_ts[i],
                        tail_ts[i + 1],
                        tail_qs[i],
                    ) by {
                    assert(AreaFrameAllocator::alloc_step(ts[i + 1], ts[i + 2], qs[i + 1]));
                }
                assert forall|g: int| tail_ss[0].cursor() <= g
                    implies !tail_ss[0].allocatable(g) by {
                    AreaFrameAllocator::lemma_allocatable_same_config(ss[0], ss[1], g);
                }
                assert forall|g: int| tail_ts[0].cursor() <= g
                    implies !tail_ts[0].allocatable(g) by {
                    AreaFrameAllocator::lemma_allocatable_same_config(ts[0], ts[1], g);
                }
                lemma_exhausted_all_none(tail_ss, tail_rs);
                lemma_exhausted_all_none(tail_ts, tail_qs);
                assert(rs =~= qs) by {
                    assert forall|i: int| 0 <= i < rs.len() implies rs[i] == qs[i] by {
                        if i > 0 {
                            assert(tail_rs[i - 1] is None);
                            assert(tail_qs[i - 1] is None);
                        }
                    }
                }
            },
        }
    }
}

} // verus!
