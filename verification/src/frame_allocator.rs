//! The physical-frame allocator: a read-only scan of the memory map
//! flattened into one sequence of usable frames, and a cursor that is
//! only ever advanced, so no frame is handed out twice.

use vstd::prelude::*;
use crate::memory_map::{
    MemoryRegion, RegionKind, first_page, end_page, region_end, region_frame_count,
    region_frame_count_exec, region_frames, region_nth_frame, region_wf,
    lemma_region_frames_in_bounds,
};

verus! {

/// Exclusive ownership of one page-aligned frame of physical memory.
#[derive(Clone, Copy, PartialEq, Eq, Structural, Debug)]
pub struct Frame {
    pub start_addr: u64,
}

/// The frames contributed by the regions from index `i` on, region
/// order as the bootloader gave it, ascending within a region.
pub open spec fn frames_from(regions: Seq<MemoryRegion>, i: int) -> Seq<u64>
    decreases regions.len() - i,
{
    if i < 0 || i >= regions.len() {
        Seq::empty()
    } else {
        region_frames(regions[i]) + frames_from(regions, i + 1)
    }
}

/// Every usable frame the memory map holds, in allocation order.
pub open spec fn usable_frames(regions: Seq<MemoryRegion>) -> Seq<u64> {
    frames_from(regions, 0)
}

pub open spec fn total_frames(regions: Seq<MemoryRegion>) -> nat {
    usable_frames(regions).len()
}

/// Sum of the per-region frame counts over the first `i` regions.
pub open spec fn sum_counts_to(regions: Seq<MemoryRegion>, i: int) -> nat
    decreases i,
{
    if i <= 0 {
        0nat
    } else {
        sum_counts_to(regions, i - 1) + region_frame_count(regions[i - 1])
    }
}

/// A memory map the allocator may be built from: no region runs past
/// the address space, usable regions do not overlap, and the flattened
/// frame sequence can be counted in a machine word.
pub open spec fn map_wf(regions: Seq<MemoryRegion>) -> bool {
    &&& forall|i: int| 0 <= i < regions.len() ==> region_wf(#[trigger] regions[i])
    &&& forall|i: int, j: int|
        0 <= i < regions.len() && 0 <= j < regions.len() && i != j && (#[trigger] regions[i]).kind
            == RegionKind::Usable && (#[trigger] regions[j]).kind == RegionKind::Usable
            ==> region_end(regions[i]) <= regions[j].start_addr || region_end(regions[j])
            <= regions[i].start_addr
    &&& total_frames(regions) <= u64::MAX
}

/// The whole flattened sequence splits at any region boundary: the
/// frames before it are counted by `sum_counts_to`, the rest by
/// `frames_from`.
pub proof fn lemma_sum_decomp(regions: Seq<MemoryRegion>, i: int)
    requires
        0 <= i <= regions.len(),
    ensures
        total_frames(regions) == sum_counts_to(regions, i) + frames_from(regions, i).len(),
{
    lemma_sum_decomp_up(regions, 0, i);
}

/// Helper: unrolling `frames_from` from the front down to `i`.
proof fn lemma_sum_decomp_up(regions: Seq<MemoryRegion>, i: int, n: int)
    requires
        0 <= i <= n <= regions.len(),
    ensures
        frames_from(regions, i).len() == (sum_counts_to(regions, n) - sum_counts_to(regions, i))
            + frames_from(regions, n).len(),
        sum_counts_to(regions, i) <= sum_counts_to(regions, n),
    decreases n - i,
{
    if i < n {
        lemma_sum_decomp_up(regions, i + 1, n);
    }
}

/// Indexing into the tail `frames_from(regions, i)` lands at position
/// `sum_counts_to(regions, i) + k` of the whole sequence.
pub proof fn lemma_frames_from_index(regions: Seq<MemoryRegion>, i: int, k: int)
    requires
        0 <= i <= regions.len(),
        0 <= k < frames_from(regions, i).len(),
    ensures
        sum_counts_to(regions, i) + k < total_frames(regions),
        usable_frames(regions)[sum_counts_to(regions, i) + k] == frames_from(regions, i)[k],
    decreases i,
{
    if i == 0 {
        lemma_sum_decomp(regions, 0);
    } else {
        let c = region_frame_count(regions[i - 1]);
        assert(frames_from(regions, i - 1) == region_frames(regions[i - 1]) + frames_from(
            regions,
            i,
        ));
        assert(frames_from(regions, i - 1)[c + k] == frames_from(regions, i)[k]);
        lemma_frames_from_index(regions, i - 1, c + k);
        assert(sum_counts_to(regions, i) == sum_counts_to(regions, i - 1) + c);
    }
}

/// Every frame in the tail lies, page-aligned, inside some usable
/// region at or after `i`.
pub proof fn lemma_frames_within_usable(regions: Seq<MemoryRegion>, i: int)
    requires
        map_wf(regions),
        0 <= i <= regions.len(),
    ensures
        forall|k: int|
            0 <= k < frames_from(regions, i).len() ==> exists|j: int|
                i <= j < regions.len() && (#[trigger] regions[j]).kind == RegionKind::Usable
                    && regions[j].start_addr <= #[trigger] frames_from(regions, i)[k]
                    && frames_from(regions, i)[k] + 4096 <= region_end(regions[j]) && frames_from(
                    regions,
                    i,
                )[k] % 4096 == 0,
    decreases regions.len() - i,
{
    if i < regions.len() {
        lemma_frames_within_usable(regions, i + 1);
        let r = regions[i];
        let c = region_frame_count(r);
        lemma_region_frames_in_bounds(r);
        assert forall|k: int| 0 <= k < frames_from(regions, i).len() implies exists|j: int|
            i <= j < regions.len() && (#[trigger] regions[j]).kind == RegionKind::Usable
                && regions[j].start_addr <= #[trigger] frames_from(regions, i)[k] && frames_from(
                regions,
                i,
            )[k] + 4096 <= region_end(regions[j]) && frames_from(regions, i)[k] % 4096 == 0 by {
            if k < c {
                assert(frames_from(regions, i)[k] == region_frames(r)[k]);
                assert(r.kind == RegionKind::Usable);
                assert(i <= i < regions.len() && regions[i].kind == RegionKind::Usable
                    && regions[i].start_addr <= frames_from(regions, i)[k] && frames_from(
                    regions,
                    i,
                )[k] + 4096 <= region_end(regions[i]) && frames_from(regions, i)[k] % 4096 == 0);
            } else {
                assert(frames_from(regions, i)[k] == frames_from(regions, i + 1)[k - c]);
                let j = choose|j: int|
                    i + 1 <= j < regions.len() && (#[trigger] regions[j]).kind
                        == RegionKind::Usable && regions[j].start_addr <= frames_from(
                        regions,
                        i + 1,
                    )[k - c] && frames_from(regions, i + 1)[k - c] + 4096 <= region_end(regions[j])
                        && frames_from(regions, i + 1)[k - c] % 4096 == 0;
                assert(i <= j < regions.len() && regions[j].kind == RegionKind::Usable
                    && regions[j].start_addr <= frames_from(regions, i)[k] && frames_from(
                    regions,
                    i,
                )[k] + 4096 <= region_end(regions[j]) && frames_from(regions, i)[k] % 4096 == 0);
            }
        }
    }
}

/// No frame address occurs twice in the tail sequence.
proof fn lemma_frames_from_distinct(regions: Seq<MemoryRegion>, i: int)
    requires
        map_wf(regions),
        0 <= i <= regions.len(),
    ensures
        forall|k1: int, k2: int|
            0 <= k1 < k2 < frames_from(regions, i).len() ==> #[trigger] frames_from(regions, i)[k1]
                != #[trigger] frames_from(regions, i)[k2],
    decreases regions.len() - i,
{
    if i < regions.len() {
        lemma_frames_from_distinct(regions, i + 1);
        lemma_frames_within_usable(regions, i + 1);
        let r = regions[i];
        let c = region_frame_count(r);
        lemma_region_frames_in_bounds(r);
        assert forall|k1: int, k2: int| 0 <= k1 < k2 < frames_from(regions, i).len() implies
            #[trigger] frames_from(regions, i)[k1] != #[trigger] frames_from(regions, i)[k2] by {
            if k2 < c {
                assert(frames_from(regions, i)[k1] == region_frames(r)[k1]);
                assert(frames_from(regions, i)[k2] == region_frames(r)[k2]);
                assert((first_page(r) + k1) * 4096 < (first_page(r) + k2) * 4096);
            } else if k1 >= c {
                assert(frames_from(regions, i)[k1] == frames_from(regions, i + 1)[k1 - c]);
                assert(frames_from(regions, i)[k2] == frames_from(regions, i + 1)[k2 - c]);
            } else {
                let f1 = frames_from(regions, i)[k1];
                let f2 = frames_from(regions, i)[k2];
                assert(f1 == region_frames(r)[k1]);
                assert(f2 == frames_from(regions, i + 1)[k2 - c]);
                assert(r.kind == RegionKind::Usable);
                assert(r.start_addr <= f1 && f1 + 4096 <= region_end(r));
                let j = choose|j: int|
                    i + 1 <= j < regions.len() && (#[trigger] regions[j]).kind
                        == RegionKind::Usable && regions[j].start_addr <= frames_from(
                        regions,
                        i + 1,
                    )[k2 - c] && frames_from(regions, i + 1)[k2 - c] + 4096 <= region_end(
                        regions[j],
                    ) && frames_from(regions, i + 1)[k2 - c] % 4096 == 0;
                assert(region_end(r) <= regions[j].start_addr || region_end(regions[j])
                    <= r.start_addr);
            }
        }
    }
}

/// A memory map with nothing usable yields no frames at all.  The
/// allocator built from such a map answers the very first request with
/// the empty outcome.
pub proof fn lemma_reserved_map_has_no_frames(regions: Seq<MemoryRegion>)
    requires
        forall|i: int| 0 <= i < regions.len() ==> (#[trigger] regions[i]).kind != RegionKind::Usable,
    ensures
        total_frames(regions) == 0,
{
    lemma_no_usable_from(regions, 0);
}

proof fn lemma_no_usable_from(regions: Seq<MemoryRegion>, i: int)
    requires
        forall|i: int| 0 <= i < regions.len() ==> (#[trigger] regions[i]).kind != RegionKind::Usable,
        0 <= i <= regions.len(),
    ensures
        frames_from(regions, i).len() == 0,
    decreases regions.len() - i,
{
    if i < regions.len() {
        lemma_no_usable_from(regions, i + 1);
    }
}

/// A memory map with a usable, page-aligned region of at least one page
/// yields at least one frame, and the first frame handed out is
/// page-aligned and lies inside a usable region of the map.
pub proof fn lemma_first_frame_usable_and_aligned(regions: Seq<MemoryRegion>, u: int)
    requires
        map_wf(regions),
        0 <= u < regions.len(),
        regions[u].kind == RegionKind::Usable,
        regions[u].start_addr % 4096 == 0,
        regions[u].length >= 4096,
    ensures
        total_frames(regions) > 0,
        usable_frames(regions)[0] % 4096 == 0,
        exists|j: int|
            0 <= j < regions.len() && (#[trigger] regions[j]).kind == RegionKind::Usable
                && regions[j].start_addr <= usable_frames(regions)[0] && usable_frames(regions)[0]
                + 4096 <= region_end(regions[j]),
{
    let r = regions[u];
    vstd::arithmetic::div_mod::lemma_fundamental_div_mod(r.start_addr as int, 4096);
    vstd::arithmetic::div_mod::lemma_fundamental_div_mod(region_end(r), 4096);
    assert(first_page(r) < end_page(r));
    assert(region_frame_count(r) > 0);
    lemma_sum_decomp(regions, u);
    lemma_sum_decomp(regions, u + 1);
    assert(frames_from(regions, u).len() >= region_frame_count(r));
    assert(total_frames(regions) > 0);
    lemma_frames_within_usable(regions, 0);
    assert(usable_frames(regions)[0] == frames_from(regions, 0)[0]);
}

/// Over the whole exhaustion sequence no two positions hold the same
/// frame address: since the allocator returns the frame at its cursor
/// and then advances the cursor for good, no frame is ever returned
/// twice.
pub proof fn lemma_allocated_frames_distinct(regions: Seq<MemoryRegion>, k1: int, k2: int)
    requires
        map_wf(regions),
        0 <= k1 < total_frames(regions),
        0 <= k2 < total_frames(regions),
        k1 != k2,
    ensures
        usable_frames(regions)[k1] != usable_frames(regions)[k2],
{
    lemma_frames_from_distinct(regions, 0);
}

/// The number of distinct frames the allocator can hand out before
/// exhaustion is the sum, over the usable regions, of the number of
/// whole pages each region holds after aligning its bounds inward.
pub proof fn lemma_total_is_sum_of_region_counts(regions: Seq<MemoryRegion>)
    ensures
        total_frames(regions) == sum_counts_to(regions, regions.len() as int),
{
    lemma_sum_decomp(regions, regions.len() as int);
}

/// Executable validation of a memory map, used at boot before the
/// allocator is built: regions inside the address space, usable
/// regions pairwise disjoint, and a frame count a machine word holds.
pub fn check_map(regions: &Vec<MemoryRegion>) -> (b: bool)
    ensures
        b == map_wf(regions@),
{
    let n = regions.len();
    let mut i: usize = 0;
    while i < n
        invariant
            n == regions@.len(),
            i <= n,
            forall|k: int| 0 <= k < i ==> region_wf(#[trigger] regions@[k]),
        decreases n - i,
    {
        let r = regions[i];
        if r.length > u64::MAX - r.start_addr {
            proof {
                assert(!region_wf(regions@[i as int]));
            }
            return false;
        }
        i = i + 1;
    }
    let mut a: usize = 0;
    while a < n
        invariant
            n == regions@.len(),
            a <= n,
            forall|k: int| 0 <= k < n ==> region_wf(#[trigger] regions@[k]),
            forall|p: int, q: int|
                0 <= p < a && 0 <= q < n && p != q && (#[trigger] regions@[p]).kind
                    == RegionKind::Usable && (#[trigger] regions@[q]).kind == RegionKind::Usable
                    ==> region_end(regions@[p]) <= regions@[q].start_addr || region_end(
                    regions@[q],
                ) <= regions@[p].start_addr,
        decreases n - a,
    {
        let ra = regions[a];
        if matches!(ra.kind, RegionKind::Usable) {
            let end_a = ra.start_addr + ra.length;
            let mut b: usize = 0;
            while b < n
                invariant
                    n == regions@.len(),
                    a < n,
                    b <= n,
                    ra == regions@[a as int],
                    end_a == region_end(ra),
                    ra.kind == RegionKind::Usable,
                    forall|k: int| 0 <= k < n ==> region_wf(#[trigger] regions@[k]),
                    forall|q: int|
                        0 <= q < b && q != a && (#[trigger] regions@[q]).kind
                            == RegionKind::Usable ==> region_end(regions@[a as int])
                            <= regions@[q].start_addr || region_end(regions@[q])
                            <= regions@[a as int].start_addr,
                decreases n - b,
            {
                if b != a {
                    let rb = regions[b];
                    if matches!(rb.kind, RegionKind::Usable) {
                        let end_b = rb.start_addr + rb.length;
                        if !(end_a <= rb.start_addr || end_b <= ra.start_addr) {
                            proof {
                                assert(!map_wf(regions@));
                            }
                            return false;
                        }
                    }
                }
                b = b + 1;
            }
        }
        a = a + 1;
    }
    let mut i: usize = 0;
    let mut acc: u64 = 0;
    while i < n
        invariant
            n == regions@.len(),
            i <= n,
            forall|k: int| 0 <= k < n ==> region_wf(#[trigger] regions@[k]),
            forall|p: int, q: int|
                0 <= p < n && 0 <= q < n && p != q && (#[trigger] regions@[p]).kind
                    == RegionKind::Usable && (#[trigger] regions@[q]).kind == RegionKind::Usable
                    ==> region_end(regions@[p]) <= regions@[q].start_addr || region_end(
                    regions@[q],
                ) <= regions@[p].start_addr,
            acc == sum_counts_to(regions@, i as int),
        decreases n - i,
    {
        let c = region_frame_count_exec(&regions[i]);
        if c > u64::MAX - acc {
            proof {
                lemma_sum_decomp(regions@, i as int + 1);
                assert(total_frames(regions@) > u64::MAX);
            }
            return false;
        }
        acc = acc + c;
        i = i + 1;
    }
    proof {
        lemma_sum_decomp(regions@, n as int);
    }
    true
}

/// The bump allocator over the bootloader's memory map.
pub struct BootInfoFrameAllocator {
    pub regions: Vec<MemoryRegion>,
    pub next: u64,
}

/// The allocator's invariant: a well-formed map and a cursor that has
/// not run past the end of the frame sequence.
pub open spec fn alloc_wf(a: BootInfoFrameAllocator) -> bool {
    &&& map_wf(a.regions@)
    &&& a.next <= total_frames(a.regions@)
}

impl BootInfoFrameAllocator {
    /// How many frames are still to be handed out.
    pub open spec fn spec_remaining(self) -> nat {
        (total_frames(self.regions@) - self.next) as nat
    }

    /// Build the allocator from a memory map.  The caller must have
    /// validated the map (see `check_map`); the cursor starts at the
    /// first usable frame.
    pub fn init(memory_map: Vec<MemoryRegion>) -> (a: BootInfoFrameAllocator)
        requires
            map_wf(memory_map@),
        ensures
            alloc_wf(a),
            a.regions@ == memory_map@,
            a.next == 0,
    {
        BootInfoFrameAllocator { regions: memory_map, next: 0 }
    }

    /// Hand out the next usable frame and advance the cursor, or report
    /// exhaustion.  The frame returned is exactly the one at the cursor
    /// in the flattened sequence, so the order of frames is fixed by
    /// the memory map alone.
    pub fn allocate_frame(&mut self) -> (r: Option<Frame>)
        requires
            alloc_wf(*old(self)),
        ensures
            alloc_wf(*final(self)),
            final(self).regions@ == old(self).regions@,
            old(self).next < total_frames(old(self).regions@) ==> {
                &&& r == Some(
                    Frame {
                        start_addr: usable_frames(old(self).regions@)[old(self).next as int],
                    },
                )
                &&& final(self).next == old(self).next + 1
                &&& usable_frames(old(self).regions@)[old(self).next as int] % 4096 == 0
                &&& exists|j: int|
                    0 <= j < old(self).regions@.len() && (#[trigger] old(self).regions@[j]).kind
                        == RegionKind::Usable && old(self).regions@[j].start_addr <= usable_frames(
                        old(self).regions@,
                    )[old(self).next as int] && usable_frames(old(self).regions@)[old(
                        self,
                    ).next as int] + 4096 <= region_end(old(self).regions@[j])
            },
            old(self).next >= total_frames(old(self).regions@) ==> {
                &&& r is None
                &&& final(self).next == old(self).next
            },
    {
        let ghost regions = self.regions@;
        let mut i: usize = 0;
        let mut skipped: u64 = 0;
        proof {
            lemma_sum_decomp(regions, 0);
        }
        while i < self.regions.len()
            invariant
                alloc_wf(*self),
                self.regions@ == regions,
                regions == old(self).regions@,
                self.next == old(self).next,
                0 <= i <= regions.len(),
                skipped == sum_counts_to(regions, i as int),
                self.next >= skipped,
            decreases regions.len() - i,
        {
            proof {
                lemma_sum_decomp(regions, i as int);
                lemma_sum_decomp(regions, i as int + 1);
            }
            let region = self.regions[i];
            let c = region_frame_count_exec(&region);
            if self.next - skipped < c {
                let d = self.next - skipped;
                let f = region_nth_frame(&region, d);
                proof {
                    assert(frames_from(regions, i as int)[d as int] == region_frames(region)[
                        d as int]);
                    lemma_frames_from_index(regions, i as int, d as int);
                    lemma_frames_within_usable(regions, 0);
                    assert(usable_frames(regions)[self.next as int] == frames_from(regions, 0)[
                        self.next as int]);
                }
                self.next = self.next + 1;
                return Some(Frame { start_addr: f });
            }
            skipped = skipped + c;
            i = i + 1;
        }
        proof {
            lemma_sum_decomp(regions, regions.len() as int);
        }
        None
    }

    /// Count the frames not yet handed out.
    pub fn remaining(&self) -> (n: u64)
        requires
            alloc_wf(*self),
        ensures
            n == self.spec_remaining(),
    {
        let ghost regions = self.regions@;
        let mut i: usize = 0;
        let mut seen: u64 = 0;
        while i < self.regions.len()
            invariant
                alloc_wf(*self),
                self.regions@ == regions,
                0 <= i <= regions.len(),
                seen == sum_counts_to(regions, i as int),
            decreases regions.len() - i,
        {
            proof {
                lemma_sum_decomp(regions, i as int);
                lemma_sum_decomp(regions, i as int + 1);
            }
            let region = self.regions[i];
            let c = region_frame_count_exec(&region);
            seen = seen + c;
            i = i + 1;
        }
        proof {
            lemma_sum_decomp(regions, regions.len() as int);
        }
        seen - self.next
    }
}

} // verus!
