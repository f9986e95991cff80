//! Behavioral tests of the frame allocator over concrete boot
//! configurations.

use boot_frame_alloc::memory::area_frame_allocator::AreaFrameAllocator;
use boot_frame_alloc::memory::{section_bounds, Frame, FrameAllocator, MemoryArea, PAGE_SIZE};

fn area(base_addr: usize, length: usize) -> MemoryArea {
    MemoryArea { base_addr, length }
}

/// Allocates until exhaustion and returns the frame numbers.
fn drain(a: &mut AreaFrameAllocator) -> Vec<usize> {
    let mut out = Vec::new();
    while let Some(f) = a.allocate_frame() {
        out.push(f.number());
    }
    out
}

#[test]
fn frame_from_address_truncates() {
    assert_eq!(Frame::from_address(0).number(), 0);
    assert_eq!(Frame::from_address(4095).number(), 0);
    assert_eq!(Frame::from_address(4096).number(), 1);
    assert_eq!(Frame::from_address(0x10000).number(), 16);
    assert_eq!(Frame::from_address(7 * PAGE_SIZE + 123).number(), 7);
}

#[test]
fn skips_both_reserved_ranges() {
    // ten frames; kernel claims frames 2..=3, boot info claims frame 5
    let areas = vec![area(0, 10 * PAGE_SIZE)];
    let mut a = AreaFrameAllocator::new(0x2000, 0x3000, 0x5000, 0x5000, areas);
    assert_eq!(drain(&mut a), vec![0, 1, 4, 6, 7, 8, 9]);
    assert!(a.allocate_frame().is_none());
}

#[test]
fn monotonic_and_unique() {
    let areas = vec![area(0, 10 * PAGE_SIZE), area(0x20000, 4 * PAGE_SIZE)];
    let mut a = AreaFrameAllocator::new(0x2000, 0x3000, 0x5000, 0x5000, areas);
    let got = drain(&mut a);
    for w in got.windows(2) {
        assert!(w[0] < w[1]);
    }
    for (i, x) in got.iter().enumerate() {
        for (j, y) in got.iter().enumerate() {
            if i != j {
                assert_ne!(x, y);
            }
        }
    }
}

#[test]
fn no_frame_in_reserved_ranges() {
    let areas = vec![area(0, 32 * PAGE_SIZE)];
    let kernel = (0x4000, 0x8FFF); // frames 4..=8
    let multiboot = (0x10000, 0x11000); // frames 16..=17
    let mut a = AreaFrameAllocator::new(kernel.0, kernel.1, multiboot.0, multiboot.1, areas);
    for n in drain(&mut a) {
        assert!(!(4 <= n && n <= 8));
        assert!(!(16 <= n && n <= 17));
    }
}

#[test]
fn exhaustion_count_matches() {
    // K = 10 - 2 (kernel) - 1 (boot info) = 7
    let areas = vec![area(0, 10 * PAGE_SIZE)];
    let mut counting = AreaFrameAllocator::new(0x2000, 0x3000, 0x5000, 0x5000, areas.clone());
    assert_eq!(counting.count_remaining_frames(), 7);
    assert!(counting.allocate_frame().is_none());

    let mut by_hand = AreaFrameAllocator::new(0x2000, 0x3000, 0x5000, 0x5000, areas);
    for _ in 0..7 {
        assert!(by_hand.allocate_frame().is_some());
    }
    assert!(by_hand.allocate_frame().is_none());
}

#[test]
fn gap_between_areas_is_jumped() {
    // two areas with a hole; nothing reserved inside either
    let areas = vec![area(0, 0x1000), area(0x10000, 0x1000)];
    let mut a = AreaFrameAllocator::new(0x20000, 0x20000, 0x21000, 0x21000, areas);
    assert_eq!(a.allocate_frame().unwrap().number(), 0);
    // the very next frame jumps directly to 0x10000's frame
    assert_eq!(
        a.allocate_frame().unwrap().number(),
        Frame::from_address(0x10000).number()
    );
    assert!(a.allocate_frame().is_none());
}

#[test]
fn area_fully_inside_kernel_range_exhausts_immediately() {
    // the area covers exactly frames 1..=2, and so does the kernel range
    let areas = vec![area(0x1000, 0x2000)];
    let mut a = AreaFrameAllocator::new(0x1000, 0x2FFF, 0x20000, 0x20000, areas);
    assert!(a.allocate_frame().is_none());
    assert!(a.allocate_frame().is_none());
}

#[test]
fn deterministic_replay() {
    let areas = vec![area(0, 6 * PAGE_SIZE), area(0x10000, 2 * PAGE_SIZE)];
    let mut first = AreaFrameAllocator::new(0x2000, 0x2000, 0x3000, 0x3000, areas.clone());
    let mut second = AreaFrameAllocator::new(0x2000, 0x2000, 0x3000, 0x3000, areas);
    for _ in 0..12 {
        let x = first.allocate_frame();
        let y = second.allocate_frame();
        assert_eq!(x, y);
    }
}

#[test]
fn zero_length_area_provides_nothing() {
    let areas = vec![area(0, 0), area(0x1000, 0x1000)];
    let mut a = AreaFrameAllocator::new(0x20000, 0x20000, 0x21000, 0x21000, areas);
    assert_eq!(a.allocate_frame().unwrap().number(), 1);
    assert!(a.allocate_frame().is_none());
}

#[test]
fn empty_memory_map_is_exhausted_from_the_start() {
    let mut a = AreaFrameAllocator::new(0x1000, 0x2000, 0x3000, 0x4000, Vec::new());
    assert!(a.allocate_frame().is_none());
    assert_eq!(a.count_remaining_frames(), 0);
}

#[test]
fn overlapping_reserved_ranges() {
    // kernel frames 0..=2 and boot info frames 1..=3 overlap
    let areas = vec![area(0, 6 * PAGE_SIZE)];
    let mut a = AreaFrameAllocator::new(0, 0x2FFF, 0x1000, 0x3FFF, areas);
    assert_eq!(drain(&mut a), vec![4, 5]);
}

#[test]
fn lowest_base_address_is_consumed_first() {
    // areas supplied out of order: the allocator still starts at the
    // lowest base address
    let areas = vec![area(0x10000, 0x1000), area(0, 0x1000)];
    let mut a = AreaFrameAllocator::new(0x20000, 0x20000, 0x21000, 0x21000, areas);
    assert_eq!(drain(&mut a), vec![0, 16]);
}

#[test]
fn reserved_range_spanning_area_boundary() {
    // the kernel range starts inside the first area and ends beyond it;
    // skipping it lands in the middle of the second area
    let areas = vec![area(0, 4 * PAGE_SIZE), area(4 * PAGE_SIZE, 6 * PAGE_SIZE)];
    let mut a = AreaFrameAllocator::new(0x2000, 0x6000, 0x20000, 0x20000, areas);
    // kernel frames 2..=6: frames 0, 1 then 7, 8, 9 remain
    assert_eq!(drain(&mut a), vec![0, 1, 7, 8, 9]);
}

#[test]
fn deallocate_frame_reclaims_nothing() {
    let areas = vec![area(0, 2 * PAGE_SIZE)];
    let mut a = AreaFrameAllocator::new(0x20000, 0x20000, 0x21000, 0x21000, areas);
    assert!(a.deallocate_frame().is_none());
    // allocation behavior is unaffected
    assert_eq!(a.allocate_frame().unwrap().number(), 0);
    assert!(a.deallocate_frame().is_none());
    assert_eq!(a.allocate_frame().unwrap().number(), 1);
}

#[test]
fn section_bounds_of_kernel_sections() {
    assert_eq!(section_bounds(&Vec::new()), None);
    assert_eq!(section_bounds(&vec![0x100000]), Some((0x100000, 0x100000)));
    assert_eq!(
        section_bounds(&vec![0x250000, 0x100000, 0x180000]),
        Some((0x100000, 0x250000))
    );
}
