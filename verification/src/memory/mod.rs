//! Physical-memory data model: page frames, boot-reported memory areas,
//! and the allocator interface.

use vstd::prelude::*;

pub mod area_frame_allocator;

pub use area_frame_allocator::AreaFrameAllocator;

verus! {

/// Size of one physical page frame in bytes.
pub const PAGE_SIZE: usize = 4096;

/// Identifies one fixed-size physical page by its frame number
/// (`address / PAGE_SIZE`). Immutable, cheap value type.
#[derive(Debug, Clone, Copy, PartialEq, Eq, PartialOrd, Ord, Structural)]
pub struct Frame {
    number: usize,
}

impl Frame {
    /// The frame number, as a mathematical integer.
    pub closed spec fn spec_number(self) -> int {
        self.number as int
    }

    /// The frame containing the given physical byte address
    /// (floor-division truncation).
    pub fn from_address(addr: usize) -> (f: Frame)
        ensures
            f.spec_number() == addr as int / PAGE_SIZE as int,
    {
        Frame { number: addr / PAGE_SIZE }
    }

    /// The frame number.
    pub fn number(&self) -> (n: usize)
        ensures
            n as int == self.spec_number(),
    {
        self.number
    }

    /// The frame with the given frame number.
    pub(crate) fn from_number(n: usize) -> (f: Frame)
        ensures
            f.spec_number() == n as int,
    {
        Frame { number: n }
    }

    /// Frames are nothing but their numbers: equal numbers, equal frames.
    pub proof fn lemma_frame_eq(a: Frame, b: Frame)
        requires
            a.spec_number() == b.spec_number(),
        ensures
            a == b,
    {
    }
}

/// A contiguous physical range reported as usable by the boot environment:
/// base address and length in bytes. Supplied once, read-only.
#[derive(Debug, Clone, Copy, PartialEq, Eq, Structural)]
pub struct MemoryArea {
    pub base_addr: usize,
    pub length: usize,
}

impl MemoryArea {
    /// The first frame whose page overlaps this area.
    pub open spec fn start_frame(self) -> int {
        self.base_addr as int / PAGE_SIZE as int
    }

    /// The frame of the area's last byte. Meaningful only when `length > 0`.
    pub open spec fn last_frame(self) -> int {
        (self.base_addr + self.length - 1) / PAGE_SIZE as int
    }

    /// The area's last byte address stays representable: rules out
    /// wraparound when computing the last frame.
    pub open spec fn wf(self) -> bool {
        self.length > 0 ==> self.base_addr + self.length - 1 <= usize::MAX
    }

    /// Whether some byte of this area lies in frame `f`.
    pub open spec fn covers(self, f: int) -> bool {
        self.length > 0 && self.start_frame() <= f <= self.last_frame()
    }
}

/// A source of unique physical page frames.
///
/// `wf` is the implementation's own well-formedness condition; both
/// operations preserve it.
pub trait FrameAllocator {
    spec fn wf(&self) -> bool;

    fn allocate_frame(&mut self) -> (r: Option<Frame>)
        requires
            old(self).wf(),
        ensures
            final(self).wf(),
    ;

    fn deallocate_frame(&mut self) -> (r: Option<Frame>)
        requires
            old(self).wf(),
        ensures
            final(self).wf(),
    ;
}

/// The least and greatest of the given section addresses, or `None` when
/// there are none: the bounds from which the kernel's reserved range is
/// derived.
pub fn section_bounds(addrs: &Vec<usize>) -> (r: Option<(usize, usize)>)
    ensures
        r is Some <==> addrs@.len() > 0,
        r matches Some(b) ==> {
            &&& addrs@.contains(b.0)
            &&& addrs@.contains(b.1)
            &&& forall|i: int| 0 <= i < addrs@.len() ==> b.0 <= #[trigger] addrs@[i] <= b.1
        },
{
    if addrs.len() == 0 {
        return None;
    }
    let mut lo: usize = addrs[0];
    let mut hi: usize = addrs[0];
    let mut i: usize = 1;
    while i < addrs.len()
        invariant
            1 <= i <= addrs@.len(),
            addrs@.contains(lo),
            addrs@.contains(hi),
            forall|j: int| 0 <= j < i ==> lo <= #[trigger] addrs@[j] <= hi,
        decreases addrs@.len() - i,
    {
        let a = addrs[i];
        if a < lo {
            lo = a;
        }
        if a > hi {
            hi = a;
        }
        i += 1;
    }
    Some((lo, hi))
}

} // verus!
