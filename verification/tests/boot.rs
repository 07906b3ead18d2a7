use ment_os::boot::{kernel_init, BootHandoff, BootOutcome};
use ment_os::frame_allocator::Frame;
use ment_os::memory_map::{MemoryRegion, RegionKind};
use ment_os::page_table::{empty_table, PageFlags};

fn usable(start_addr: u64, length: u64) -> MemoryRegion {
    MemoryRegion { start_addr, length, kind: RegionKind::Usable }
}

fn handoff(map: Vec<MemoryRegion>) -> BootHandoff {
    BootHandoff {
        physical_memory_offset: 0x1000_0000_0000,
        memory_map: map,
        root_table_addr: 0x1000,
        root_table: empty_table(),
    }
}

#[test]
fn valid_handoff_boots() {
    let outcome = kernel_init(handoff(vec![usable(0x1000, 0x4000)]));
    match outcome {
        BootOutcome::Running(k) => {
            assert_eq!(k.mapper.phys_offset, 0x1000_0000_0000);
            assert_eq!(k.mapper.root_addr, 0x1000);
            assert_eq!(k.frame_allocator.next, 0);
            assert_eq!(k.frame_allocator.regions.len(), 1);
        },
        BootOutcome::Halted => panic!("a well-formed handoff must boot"),
    }
}

#[test]
fn malformed_map_halts() {
    // two usable regions overlap: the record is rejected, no recovery
    let outcome = kernel_init(handoff(vec![usable(0x1000, 0x3000), usable(0x2000, 0x2000)]));
    assert!(matches!(outcome, BootOutcome::Halted));
}

#[test]
fn malformed_root_table_halts() {
    let mut h = handoff(vec![usable(0x1000, 0x4000)]);
    // a table that is not 512 entries long is no page table
    h.root_table.entries.truncate(100);
    assert!(matches!(kernel_init(h), BootOutcome::Halted));
}

#[test]
fn booted_kernel_allocates_and_maps() {
    let outcome = kernel_init(handoff(vec![usable(0x10_0000, 0x10000)]));
    let mut k = match outcome {
        BootOutcome::Running(k) => k,
        BootOutcome::Halted => panic!("a well-formed handoff must boot"),
    };
    let frame = k.frame_allocator.allocate_frame().expect("frames are available");
    assert_eq!(frame, Frame { start_addr: 0x10_0000 });
    let flags = PageFlags { present: true, writable: true };
    let r = k.mapper.map_page(0x2000_0000, frame, flags, &mut k.frame_allocator);
    assert_eq!(r, Ok(()));
    assert_eq!(k.mapper.translate(0x2000_0000), Some(0x10_0000));
}
