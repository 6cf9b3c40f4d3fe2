use kernel_core::frame::{FrameAllocator, MemoryRegion, PhysAddr, PhysFrame, RegionKind};
use kernel_core::heap::{init_heap, AllocError, Heap};
use kernel_core::paging::{MapError, Page, PageTable, VirtAddr};

fn usable(start: u64, end: u64) -> MemoryRegion {
    MemoryRegion { start, end, kind: RegionKind::Usable }
}

fn reserved(start: u64, end: u64) -> MemoryRegion {
    MemoryRegion { start, end, kind: RegionKind::Reserved }
}

fn drain(alloc: &mut FrameAllocator) -> Vec<u64> {
    let mut out = Vec::new();
    while let Some(f) = alloc.allocate_frame() {
        out.push(f.start);
    }
    out
}

#[test]
fn one_frame_region_is_exhausted_after_one_allocation() {
    let mut alloc = FrameAllocator::new(vec![usable(0x1000, 0x2000)]);
    assert_eq!(alloc.allocate_frame(), Some(PhysFrame { start: 0x1000 }));
    assert_eq!(alloc.allocate_frame(), None);
    assert_eq!(alloc.allocate_frame(), None);
}

#[test]
fn frames_come_in_address_order_and_skip_reserved_regions() {
    let map = vec![
        usable(0x5000, 0x7000),
        reserved(0x0, 0x5000),
        usable(0x1000, 0x3000),
    ];
    let mut alloc = FrameAllocator::new(map);
    assert_eq!(drain(&mut alloc), vec![0x1000, 0x2000, 0x5000, 0x6000]);
}

#[test]
fn partial_frames_at_region_edges_are_not_handed_out() {
    let mut alloc = FrameAllocator::new(vec![usable(0x1800, 0x4100)]);
    assert_eq!(drain(&mut alloc), vec![0x2000, 0x3000]);
}

#[test]
fn overlapping_usable_regions_never_yield_a_frame_twice() {
    let mut alloc = FrameAllocator::new(vec![usable(0x0, 0x3000), usable(0x1000, 0x4000)]);
    let frames = drain(&mut alloc);
    assert_eq!(frames, vec![0x0, 0x1000, 0x2000, 0x3000]);
}

#[test]
fn empty_map_has_no_frames() {
    let mut alloc = FrameAllocator::new(Vec::new());
    assert_eq!(alloc.allocate_frame(), None);
}

#[test]
fn frame_at_top_of_address_space() {
    let top = u64::MAX - 0xfff;
    let mut alloc = FrameAllocator::new(vec![usable(top - 0x1000, u64::MAX)]);
    assert_eq!(drain(&mut alloc), vec![top - 0x1000]);
}

fn table() -> PageTable {
    PageTable::new(PhysFrame { start: 0x1000 })
}

#[test]
fn map_then_translate_round_trip() {
    let mut frames = FrameAllocator::new(vec![usable(0x10_0000, 0x20_0000)]);
    let mut pt = table();
    assert_eq!(pt.translate(VirtAddr(0x4444_0123)), None);
    let page = Page { start: 0x4444_0000 };
    let r = pt.map(page, PhysFrame { start: 0x9000 }, 0b11, &mut frames);
    assert_eq!(r, Ok(()));
    assert_eq!(pt.translate(VirtAddr(0x4444_0123)), Some(PhysAddr(0x9123)));
    assert_eq!(pt.translate(VirtAddr(0x4444_0000)), Some(PhysAddr(0x9000)));
    assert_eq!(pt.translate(VirtAddr(0x4444_1000)), None);
    // three intermediate tables were taken from the allocator
    assert_eq!(frames.allocate_frame(), Some(PhysFrame { start: 0x10_3000 }));
}

#[test]
fn mapping_a_page_twice_is_refused() {
    let mut frames = FrameAllocator::new(vec![usable(0x10_0000, 0x20_0000)]);
    let mut pt = table();
    let page = Page { start: 0x2000 };
    assert_eq!(pt.map(page, PhysFrame { start: 0x5000 }, 0b11, &mut frames), Ok(()));
    assert_eq!(
        pt.map(page, PhysFrame { start: 0x6000 }, 0b11, &mut frames),
        Err(MapError::AlreadyMapped)
    );
    assert_eq!(pt.translate(VirtAddr(0x2008)), Some(PhysAddr(0x5008)));
}

#[test]
fn neighbouring_pages_share_tables() {
    let mut frames = FrameAllocator::new(vec![usable(0x10_0000, 0x10_4000)]);
    let mut pt = table();
    assert_eq!(pt.map(Page { start: 0x0 }, PhysFrame { start: 0x7000 }, 1, &mut frames), Ok(()));
    assert_eq!(pt.map(Page { start: 0x1000 }, PhysFrame { start: 0x8000 }, 1, &mut frames), Ok(()));
    assert_eq!(pt.translate(VirtAddr(0x1fff)), Some(PhysAddr(0x8fff)));
    assert_eq!(frames.allocate_frame(), Some(PhysFrame { start: 0x10_3000 }));
}

#[test]
fn map_without_frames_for_tables_fails() {
    let mut frames = FrameAllocator::new(vec![usable(0x10_0000, 0x10_2000)]);
    let mut pt = table();
    let r = pt.map(Page { start: 0x0 }, PhysFrame { start: 0x7000 }, 1, &mut frames);
    assert_eq!(r, Err(MapError::FrameAllocationFailed));
    assert_eq!(pt.translate(VirtAddr(0x0)), None);
}

#[test]
fn mapping_inside_a_huge_page_is_refused() {
    let mut frames = FrameAllocator::new(vec![usable(0x10_0000, 0x20_0000)]);
    let mut pt = table();
    let huge = Page { start: 0x4000_0000 };
    assert_eq!(pt.map_huge(huge, PhysFrame { start: 0x80_0000 }, &mut frames), Ok(()));
    assert_eq!(pt.translate(VirtAddr(0x4012_3456)), Some(PhysAddr(0x92_3456)));
    assert_eq!(
        pt.map(Page { start: 0x4001_0000 }, PhysFrame { start: 0x9000 }, 1, &mut frames),
        Err(MapError::HugePage)
    );
    assert_eq!(
        pt.map_huge(huge, PhysFrame { start: 0x40_0000 }, &mut frames),
        Err(MapError::AlreadyMapped)
    );
}

#[test]
fn allocations_are_aligned_and_disjoint() {
    let mut h = Heap::new(0x1000, 0x100);
    let a = h.allocate(3, 1).unwrap();
    let b = h.allocate(8, 8).unwrap();
    let c = h.allocate(16, 16).unwrap();
    assert_eq!(a, 0x1000);
    assert_eq!(b, 0x1008);
    assert_eq!(c, 0x1010);
    let spans = [(a, 3u64), (b, 8), (c, 16)];
    for (i, x) in spans.iter().enumerate() {
        for y in spans.iter().skip(i + 1) {
            assert!(x.0 + x.1 <= y.0 || y.0 + y.1 <= x.0);
        }
    }
}

#[test]
fn heap_runs_out_of_memory() {
    let mut h = Heap::new(0x1000, 0x40);
    assert_eq!(h.allocate(0x40, 8), Ok(0x1000));
    assert_eq!(h.allocate(1, 1), Err(AllocError::OutOfMemory));
    let mut small = Heap::new(0x1001, 0x10);
    assert_eq!(small.allocate(0x10, 2), Err(AllocError::OutOfMemory));
    assert_eq!(small.allocate(0xf, 2), Ok(0x1002));
}

#[test]
fn freed_block_is_reused() {
    let mut h = Heap::new(0x1000, 0x20);
    let a = h.allocate(0x10, 8).unwrap();
    let b = h.allocate(0x10, 8).unwrap();
    assert_eq!(h.allocate(1, 1), Err(AllocError::OutOfMemory));
    h.deallocate(a, 0x10, 8);
    assert_eq!(h.allocate(0x10, 8), Ok(a));
    h.deallocate(b, 0x10, 8);
    assert_eq!(h.allocate(8, 8), Ok(b));
}

#[test]
fn freed_neighbours_are_not_merged() {
    let mut h = Heap::new(0x1000, 0x20);
    let a = h.allocate(0x10, 1).unwrap();
    let b = h.allocate(0x10, 1).unwrap();
    h.deallocate(a, 0x10, 1);
    h.deallocate(b, 0x10, 1);
    assert_eq!(h.free_count(), 2);
    assert_eq!(h.allocate(0x20, 1), Err(AllocError::OutOfMemory));
}

#[test]
fn alignment_padding_stays_free() {
    let mut h = Heap::new(0x1001, 0x40);
    assert_eq!(h.allocate(4, 0x10), Ok(0x1010));
    assert_eq!(h.allocate(0xf, 1), Ok(0x1001));
}

#[test]
fn empty_heap_has_nothing() {
    let mut h = Heap::new(0x1000, 0);
    assert_eq!(h.free_count(), 0);
    assert_eq!(h.allocate(1, 1), Err(AllocError::OutOfMemory));
}

#[test]
fn heap_init_maps_every_page() {
    let mut frames = FrameAllocator::new(vec![usable(0x10_0000, 0x20_0000)]);
    let mut pt = table();
    let h = init_heap(0x4444_0000, 0x3000, &mut pt, &mut frames).unwrap();
    assert_eq!(h.start(), 0x4444_0000);
    assert_eq!(h.size(), 0x3000);
    assert_eq!(h.free_count(), 1);
    // the first page's frame comes before the three tables made for it
    assert_eq!(pt.translate(VirtAddr(0x4444_0000)), Some(PhysAddr(0x10_0000)));
    assert_eq!(pt.translate(VirtAddr(0x4444_1010)), Some(PhysAddr(0x10_4010)));
    assert_eq!(pt.translate(VirtAddr(0x4444_2fff)), Some(PhysAddr(0x10_5fff)));
    assert_eq!(pt.translate(VirtAddr(0x4444_3000)), None);
}

#[test]
fn heap_init_reports_exhausted_frames() {
    let mut frames = FrameAllocator::new(vec![usable(0x10_0000, 0x10_4000)]);
    let mut pt = table();
    let r = init_heap(0x4444_0000, 0x2000, &mut pt, &mut frames);
    assert_eq!(r.err(), Some(MapError::FrameAllocationFailed));
}

#[test]
fn heap_init_over_a_mapped_page_fails() {
    let mut frames = FrameAllocator::new(vec![usable(0x10_0000, 0x20_0000)]);
    let mut pt = table();
    assert_eq!(pt.map(Page { start: 0x4444_1000 }, PhysFrame { start: 0x9000 }, 1, &mut frames), Ok(()));
    let r = init_heap(0x4444_0000, 0x2000, &mut pt, &mut frames);
    assert_eq!(r.err(), Some(MapError::AlreadyMapped));
}
