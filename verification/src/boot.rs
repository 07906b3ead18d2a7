//! Kernel initialisation: validate the boot handoff record, then
//! construct the frame allocator and the mapper exactly once.  A
//! malformed record has no recovery at this layer: the outcome is the
//! terminal halted state.

use vstd::prelude::*;
use crate::frame_allocator::{BootInfoFrameAllocator, alloc_wf, check_map, map_wf};
use crate::mapper::{Mapper, mapper_wf};
use crate::memory_map::MemoryRegion;
use crate::page_table::{Table, check_table, table_wf};

verus! {

/// Everything the bootloader hands over: the offset at which physical
/// memory is mirrored into virtual addresses, the memory map, and the
/// physical address and contents of the active top-level page table.
pub struct BootHandoff {
    pub physical_memory_offset: u64,
    pub memory_map: Vec<MemoryRegion>,
    pub root_table_addr: u64,
    pub root_table: Table,
}

/// A handoff record the kernel can be brought up from.
pub open spec fn handoff_wf(h: BootHandoff) -> bool {
    &&& map_wf(h.memory_map@)
    &&& table_wf(h.root_table, 4)
}

/// The memory subsystem once it is up.
pub struct Kernel {
    pub mapper: Mapper,
    pub frame_allocator: BootInfoFrameAllocator,
}

/// The boot process either runs on with the subsystem constructed or
/// reaches the terminal halted state; nothing leads out of `Halted`.
pub enum BootOutcome {
    Running(Kernel),
    Halted,
}

/// Bring up the memory subsystem from the handoff record: validate it,
/// then build the frame allocator over the memory map and the mapper
/// over the active table hierarchy.  Exactly the malformed records
/// halt; a well-formed one always yields a running kernel whose parts
/// start untouched.
pub fn kernel_init(handoff: BootHandoff) -> (r: BootOutcome)
    ensures
        r is Running <==> handoff_wf(handoff),
        r is Running ==> {
            let k = r->Running_0;
            &&& mapper_wf(k.mapper)
            &&& alloc_wf(k.frame_allocator)
            &&& k.mapper.phys_offset == handoff.physical_memory_offset
            &&& k.mapper.root_addr == handoff.root_table_addr
            &&& k.mapper.root == handoff.root_table
            &&& k.frame_allocator.regions@ == handoff.memory_map@
            &&& k.frame_allocator.next == 0
        },
{
    if !check_map(&handoff.memory_map) {
        return BootOutcome::Halted;
    }
    if !check_table(&handoff.root_table, 4) {
        return BootOutcome::Halted;
    }
    let BootHandoff { physical_memory_offset, memory_map, root_table_addr, root_table } = handoff;
    let frame_allocator = BootInfoFrameAllocator::init(memory_map);
    let mapper = Mapper::init(physical_memory_offset, root_table_addr, root_table);
    BootOutcome::Running(Kernel { mapper, frame_allocator })
}

} // verus!
