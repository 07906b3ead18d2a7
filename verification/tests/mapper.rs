use ment_os::addr::TABLE_LEN;
use ment_os::frame_allocator::{check_map, BootInfoFrameAllocator, Frame};
use ment_os::mapper::{MapError, Mapper};
use ment_os::memory_map::{MemoryRegion, RegionKind};
use ment_os::page_table::{empty_table, PageFlags, Slot};

const OFFSET: u64 = 0x1000_0000_0000;

fn usable(start_addr: u64, length: u64) -> MemoryRegion {
    MemoryRegion { start_addr, length, kind: RegionKind::Usable }
}

fn allocator_over(length: u64) -> BootInfoFrameAllocator {
    let map = vec![usable(0x10_0000, length)];
    assert!(check_map(&map));
    BootInfoFrameAllocator::init(map)
}

fn present_writable() -> PageFlags {
    PageFlags { present: true, writable: true }
}

#[test]
fn translate_unmapped_is_none() {
    let mapper = Mapper::init(OFFSET, 0x1000, empty_table());
    assert_eq!(mapper.translate(0x2000_0000), None);
    assert_eq!(mapper.translate(0), None);
    assert_eq!(mapper.translate(0xdead_beef), None);
}

#[test]
fn map_then_translate_scenario() {
    let mut mapper = Mapper::init(OFFSET, 0x1000, empty_table());
    let mut alloc = allocator_over(0x10000);
    let r = mapper.map_page(0x2000_0000, Frame { start_addr: 0x5000 }, present_writable(), &mut alloc);
    assert_eq!(r, Ok(()));
    assert_eq!(mapper.translate(0x2000_0000), Some(0x5000));
    // the in-page offset of a probe address is preserved
    assert_eq!(mapper.translate(0x2000_0123), Some(0x5123));
    assert_eq!(mapper.translate(0x2000_0FFF), Some(0x5FFF));
    // the next page over is still unmapped
    assert_eq!(mapper.translate(0x2000_1000), None);
}

#[test]
fn map_consumes_three_tables_for_empty_root() {
    let mut mapper = Mapper::init(OFFSET, 0x1000, empty_table());
    let mut alloc = allocator_over(0x10000);
    let before = alloc.remaining();
    let r = mapper.map_page(0x2000_0000, Frame { start_addr: 0x5000 }, present_writable(), &mut alloc);
    assert_eq!(r, Ok(()));
    assert_eq!(alloc.remaining(), before - 3);
    // a second page on the same walk reuses the tables just built
    let r2 = mapper.map_page(0x2000_1000, Frame { start_addr: 0x6000 }, present_writable(), &mut alloc);
    assert_eq!(r2, Ok(()));
    assert_eq!(alloc.remaining(), before - 3);
    assert_eq!(mapper.translate(0x2000_1000), Some(0x6000));
    assert_eq!(mapper.translate(0x2000_0000), Some(0x5000));
}

#[test]
fn double_map_rejected_and_mapping_kept() {
    let mut mapper = Mapper::init(OFFSET, 0x1000, empty_table());
    let mut alloc = allocator_over(0x10000);
    let r1 = mapper.map_page(0x2000_0000, Frame { start_addr: 0x5000 }, present_writable(), &mut alloc);
    assert_eq!(r1, Ok(()));
    let left = alloc.remaining();
    let r2 = mapper.map_page(0x2000_0000, Frame { start_addr: 0x7000 }, present_writable(), &mut alloc);
    assert_eq!(r2, Err(MapError::AlreadyMapped));
    // the original mapping is unchanged and nothing was allocated
    assert_eq!(mapper.translate(0x2000_0000), Some(0x5000));
    assert_eq!(alloc.remaining(), left);
}

#[test]
fn exhausted_allocator_fails_cleanly() {
    let mut mapper = Mapper::init(OFFSET, 0x1000, empty_table());
    // two frames are not enough for the three missing tables
    let mut alloc = allocator_over(0x2000);
    let r = mapper.map_page(0x2000_0000, Frame { start_addr: 0x5000 }, present_writable(), &mut alloc);
    assert_eq!(r, Err(MapError::FrameAllocationFailed));
    // neither the hierarchy nor the allocator was touched
    assert_eq!(mapper.translate(0x2000_0000), None);
    assert_eq!(alloc.remaining(), 2);
}

#[test]
fn huge_parent_reported_not_mistranslated() {
    let mut root = empty_table();
    // a huge-page leaf at the top level blocks every walk through it
    root.entries[0] = Slot::Leaf { addr: 0x20_0000, flags: present_writable() };
    let mut mapper = Mapper::init(OFFSET, 0x1000, root);
    let mut alloc = allocator_over(0x10000);
    assert_eq!(mapper.translate(0x2000_0000), None);
    let r = mapper.map_page(0x2000_0000, Frame { start_addr: 0x5000 }, present_writable(), &mut alloc);
    assert_eq!(r, Err(MapError::ParentHugePage));
    assert_eq!(alloc.remaining(), 16);
}

#[test]
fn non_present_mapping_occupies_but_does_not_translate() {
    let mut mapper = Mapper::init(OFFSET, 0x1000, empty_table());
    let mut alloc = allocator_over(0x10000);
    let flags = PageFlags { present: false, writable: false };
    let r = mapper.map_page(0x2000_0000, Frame { start_addr: 0x5000 }, flags, &mut alloc);
    assert_eq!(r, Ok(()));
    assert_eq!(mapper.translate(0x2000_0000), None);
    // the slot is taken all the same
    let r2 = mapper.map_page(0x2000_0000, Frame { start_addr: 0x5000 }, present_writable(), &mut alloc);
    assert_eq!(r2, Err(MapError::AlreadyMapped));
}

#[test]
fn distinct_walks_do_not_disturb_each_other() {
    let mut mapper = Mapper::init(OFFSET, 0x1000, empty_table());
    let mut alloc = allocator_over(0x20000);
    let a = 0x2000_0000;
    let b = 0x4000_0000; // differs at the third level
    let c = 0x0000_1000; // differs at every level below the root entry
    assert_eq!(mapper.map_page(a, Frame { start_addr: 0x5000 }, present_writable(), &mut alloc), Ok(()));
    assert_eq!(mapper.map_page(b, Frame { start_addr: 0x8000 }, present_writable(), &mut alloc), Ok(()));
    assert_eq!(mapper.map_page(c, Frame { start_addr: 0x9000 }, present_writable(), &mut alloc), Ok(()));
    assert_eq!(mapper.translate(a), Some(0x5000));
    assert_eq!(mapper.translate(b), Some(0x8000));
    assert_eq!(mapper.translate(c), Some(0x9000));
}

#[test]
fn mapper_keeps_offset_and_root_address() {
    let mapper = Mapper::init(OFFSET, 0x3000, empty_table());
    assert_eq!(mapper.phys_offset, OFFSET);
    assert_eq!(mapper.root_addr, 0x3000);
    assert_eq!(mapper.root.entries.len(), TABLE_LEN);
}
