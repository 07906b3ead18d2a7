use ment_os::addr::PAGE_SIZE;
use ment_os::frame_allocator::{check_map, BootInfoFrameAllocator, Frame};
use ment_os::memory_map::{MemoryRegion, RegionKind};

fn usable(start_addr: u64, length: u64) -> MemoryRegion {
    MemoryRegion { start_addr, length, kind: RegionKind::Usable }
}

fn reserved(start_addr: u64, length: u64) -> MemoryRegion {
    MemoryRegion { start_addr, length, kind: RegionKind::Reserved }
}

fn drain(alloc: &mut BootInfoFrameAllocator) -> Vec<u64> {
    let mut out = Vec::new();
    while let Some(f) = alloc.allocate_frame() {
        out.push(f.start_addr);
    }
    out
}

#[test]
fn reserved_only_map_yields_none() {
    let map = vec![reserved(0x0, 0x10000), reserved(0x20000, 0x8000)];
    assert!(check_map(&map));
    let mut alloc = BootInfoFrameAllocator::init(map);
    assert_eq!(alloc.allocate_frame(), None);
}

#[test]
fn empty_map_yields_none() {
    let map: Vec<MemoryRegion> = Vec::new();
    assert!(check_map(&map));
    let mut alloc = BootInfoFrameAllocator::init(map);
    assert_eq!(alloc.allocate_frame(), None);
}

#[test]
fn first_frame_aligned_in_usable() {
    let map = vec![reserved(0x0, 0x1000), usable(0x8000, 0x3000)];
    assert!(check_map(&map));
    let mut alloc = BootInfoFrameAllocator::init(map);
    let f = alloc.allocate_frame().expect("a usable page must yield a frame");
    assert_eq!(f.start_addr % PAGE_SIZE, 0);
    assert!(0x8000 <= f.start_addr && f.start_addr + PAGE_SIZE <= 0xB000);
}

#[test]
fn sequential_frames_scenario() {
    let map = vec![usable(0x1000, 0x4000)];
    assert!(check_map(&map));
    let mut alloc = BootInfoFrameAllocator::init(map);
    assert_eq!(alloc.allocate_frame(), Some(Frame { start_addr: 0x1000 }));
    assert_eq!(alloc.allocate_frame(), Some(Frame { start_addr: 0x2000 }));
    assert_eq!(alloc.allocate_frame(), Some(Frame { start_addr: 0x3000 }));
    assert_eq!(alloc.allocate_frame(), Some(Frame { start_addr: 0x4000 }));
    assert_eq!(alloc.allocate_frame(), None);
}

#[test]
fn frames_all_distinct() {
    let map = vec![usable(0x1000, 0x3000), reserved(0x4000, 0x1000), usable(0x10000, 0x5000)];
    assert!(check_map(&map));
    let mut alloc = BootInfoFrameAllocator::init(map);
    let frames = drain(&mut alloc);
    for i in 0..frames.len() {
        for j in 0..frames.len() {
            if i != j {
                assert_ne!(frames[i], frames[j]);
            }
        }
    }
}

#[test]
fn frame_count_matches_aligned_sum() {
    // 0x1800..0x4000 holds two whole pages (0x2000, 0x3000); a region
    // smaller than a page holds none; 0x10000..0x13000 holds three.
    let map = vec![usable(0x1800, 0x2800), usable(0x5000, 0x800), usable(0x10000, 0x3000)];
    assert!(check_map(&map));
    let mut alloc = BootInfoFrameAllocator::init(map);
    assert_eq!(alloc.remaining(), 5);
    let frames = drain(&mut alloc);
    assert_eq!(frames, vec![0x2000, 0x3000, 0x10000, 0x11000, 0x12000]);
}

#[test]
fn region_smaller_than_page_contributes_nothing() {
    let map = vec![usable(0x2000, 0xFFF)];
    assert!(check_map(&map));
    let mut alloc = BootInfoFrameAllocator::init(map);
    assert_eq!(alloc.allocate_frame(), None);
}

#[test]
fn map_order_preserved_not_sorted() {
    // The bootloader's region order is kept: the higher region comes
    // first, ascending only within each region.
    let map = vec![usable(0x8000, 0x2000), usable(0x1000, 0x1000)];
    assert!(check_map(&map));
    let mut alloc = BootInfoFrameAllocator::init(map);
    let frames = drain(&mut alloc);
    assert_eq!(frames, vec![0x8000, 0x9000, 0x1000]);
}

#[test]
fn remaining_tracks_cursor() {
    let map = vec![usable(0x1000, 0x4000)];
    assert!(check_map(&map));
    let mut alloc = BootInfoFrameAllocator::init(map);
    assert_eq!(alloc.remaining(), 4);
    alloc.allocate_frame();
    assert_eq!(alloc.remaining(), 3);
    drain(&mut alloc);
    assert_eq!(alloc.remaining(), 0);
}

#[test]
fn check_map_rejects_overlapping_usable() {
    let map = vec![usable(0x1000, 0x3000), usable(0x2000, 0x1000)];
    assert!(!check_map(&map));
}

#[test]
fn check_map_rejects_region_past_address_space() {
    let map = vec![usable(u64::MAX - 0xFFF, 0x2000)];
    assert!(!check_map(&map));
}

#[test]
fn check_map_allows_overlap_with_reserved() {
    // Only usable regions must be disjoint from one another.
    let map = vec![usable(0x1000, 0x1000), reserved(0x1000, 0x2000)];
    assert!(check_map(&map));
}
