//! The bootloader's description of physical memory: a list of regions,
//! each usable or reserved, and the page-aligned frames a region holds.

use vstd::prelude::*;
use vstd::arithmetic::div_mod::{lemma_fundamental_div_mod, lemma_mod_multiples_basic};

verus! {

/// What a region of physical memory may be used for.
#[derive(Clone, Copy, PartialEq, Eq, Structural, Debug)]
pub enum RegionKind {
    /// Free RAM the kernel may allocate from.
    Usable,
    /// Anything else: firmware data, device memory, the kernel image.
    Reserved,
}

/// One entry of the bootloader-supplied memory map.
#[derive(Clone, Copy, PartialEq, Eq, Structural, Debug)]
pub struct MemoryRegion {
    pub start_addr: u64,
    pub length: u64,
    pub kind: RegionKind,
}

/// One past the last byte of the region.
pub open spec fn region_end(r: MemoryRegion) -> int {
    r.start_addr + r.length
}

/// A region must not run past the end of the address space.
pub open spec fn region_wf(r: MemoryRegion) -> bool {
    region_end(r) <= u64::MAX
}

/// Page number of the first whole page at or after the region's start.
pub open spec fn first_page(r: MemoryRegion) -> int {
    if r.start_addr % 4096 == 0 {
        r.start_addr as int / 4096
    } else {
        r.start_addr as int / 4096 + 1
    }
}

/// Page number just past the last whole page that ends inside the region.
pub open spec fn end_page(r: MemoryRegion) -> int {
    region_end(r) / 4096
}

/// How many page-aligned frames lie entirely inside the region, counting
/// only usable regions.  A usable region smaller than one page, or one
/// whose aligned span is empty, contributes nothing.
pub open spec fn region_frame_count(r: MemoryRegion) -> nat {
    if r.kind == RegionKind::Usable && first_page(r) < end_page(r) {
        (end_page(r) - first_page(r)) as nat
    } else {
        0nat
    }
}

/// The frame addresses a region contributes, in ascending order.
pub open spec fn region_frames(r: MemoryRegion) -> Seq<u64> {
    Seq::new(region_frame_count(r), |i: int| ((first_page(r) + i) * 4096) as u64)
}

/// Every frame of a region is page-aligned and lies, as a whole page,
/// inside the region's bounds.
pub proof fn lemma_region_frames_in_bounds(r: MemoryRegion)
    requires
        region_wf(r),
    ensures
        forall|i: int|
            0 <= i < region_frames(r).len() ==> {
                let f = (first_page(r) + i) * 4096;
                &&& #[trigger] region_frames(r)[i] == f
                &&& f % 4096 == 0
                &&& r.start_addr <= f
                &&& f + 4096 <= region_end(r)
            },
{
    let s = r.start_addr as int;
    let e = region_end(r);
    lemma_fundamental_div_mod(s, 4096);
    lemma_fundamental_div_mod(e, 4096);
    assert forall|i: int| 0 <= i < region_frames(r).len() implies {
        let f = (first_page(r) + i) * 4096;
        &&& #[trigger] region_frames(r)[i] == f
        &&& f % 4096 == 0
        &&& r.start_addr <= f
        &&& f + 4096 <= region_end(r)
    } by {
        let p = first_page(r) + i;
        lemma_mod_multiples_basic(p, 4096);
        assert(p * 4096 == first_page(r) * 4096 + i * 4096);
        assert(first_page(r) * 4096 >= s);
        assert(p < end_page(r));
        assert(p * 4096 <= (end_page(r) - 1) * 4096);
        assert((end_page(r) - 1) * 4096 == end_page(r) * 4096 - 4096);
        assert(end_page(r) * 4096 <= e);
        assert(0 <= p * 4096 <= u64::MAX);
    }
}

/// Executable count of the frames a region contributes.
pub fn region_frame_count_exec(r: &MemoryRegion) -> (c: u64)
    requires
        region_wf(*r),
    ensures
        c == region_frame_count(*r),
{
    match r.kind {
        RegionKind::Reserved => 0,
        RegionKind::Usable => {
            let end = r.start_addr + r.length;
            let ep = end / 4096;
            let fp = if r.start_addr % 4096 == 0 {
                r.start_addr / 4096
            } else {
                r.start_addr / 4096 + 1
            };
            if fp < ep {
                ep - fp
            } else {
                0
            }
        },
    }
}

/// Executable address of the `d`-th frame of a region.
pub fn region_nth_frame(r: &MemoryRegion, d: u64) -> (f: u64)
    requires
        region_wf(*r),
        d < region_frame_count(*r),
    ensures
        f == region_frames(*r)[d as int],
        f % 4096 == 0,
{
    proof {
        lemma_region_frames_in_bounds(*r);
    }
    let fp = if r.start_addr % 4096 == 0 {
        r.start_addr / 4096
    } else {
        r.start_addr / 4096 + 1
    };
    (fp + d) * 4096
}

} // verus!
