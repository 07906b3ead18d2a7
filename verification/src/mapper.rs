//! The page-table mapper: translates virtual addresses through the
//! active hierarchy and installs new leaf mappings, drawing frames
//! from the allocator whenever an intermediate table is missing.

use vstd::prelude::*;
use crate::addr::{
    level_index, page_offset, same_path, same_path_to, table_index, lemma_level_index_bound,
    lemma_same_path_step, lemma_offset_stays_in_page, lemma_aligned_add_no_overflow,
};
use crate::frame_allocator::{BootInfoFrameAllocator, Frame, alloc_wf};
use crate::page_table::{
    PageFlags, PathInfo, Slot, Table, empty_table, leaf_slot, lemma_empty_table,
    lemma_walk_reads_one_slot, missing_tables, path_info, path_walk, slot_wf, table_wf,
    translate_at, translate_in,
};

verus! {

/// Why installing a mapping can fail.
#[derive(Clone, Copy, PartialEq, Eq, Structural, Debug)]
pub enum MapError {
    /// The virtual page already holds a mapping; it is left untouched.
    AlreadyMapped,
    /// A huge-page mapping sits above the leaf level on the walk.
    ParentHugePage,
    /// The allocator cannot supply the missing intermediate tables.
    FrameAllocationFailed,
}

/// The mapper: the physical-memory offset fixed at construction, and
/// the active top-level table with the hierarchy it heads.
pub struct Mapper {
    pub phys_offset: u64,
    pub root_addr: u64,
    pub root: Table,
}

pub open spec fn mapper_wf(m: Mapper) -> bool {
    table_wf(m.root, 4)
}

/// Tables that agree everywhere but at `v`'s index walk every other
/// index alike.
proof fn lemma_update_preserves_others(t0: Table, t1: Table, level: nat, v: u64)
    requires
        1 <= level <= 4,
        t0.entries.len() == 512,
        t1.entries.len() == 512,
        t1.entries@ =~= t0.entries@.update(
            level_index(v, level) as int,
            t1.entries[level_index(v, level) as int],
        ),
    ensures
        forall|w: u64|
            level_index(w, level) != level_index(v, level) ==> translate_at(t1, level, w)
                == translate_at(t0, level, w) && path_info(t1, level, w) == path_info(
                t0,
                level,
                w,
            ),
{
    assert forall|w: u64| level_index(w, level) != level_index(v, level) implies translate_at(
        t1,
        level,
        w,
    ) == translate_at(t0, level, w) && path_info(t1, level, w) == path_info(t0, level, w) by {
        lemma_level_index_bound(w, level);
        lemma_level_index_bound(v, level);
        assert(t1.entries[level_index(w, level) as int] == t0.entries[level_index(
            w,
            level,
        ) as int]);
        lemma_walk_reads_one_slot(t1, t0, level, w);
    }
}

/// Agreement on an empty span of levels holds of any two addresses.
proof fn lemma_same_path_trivial(w: u64, v: u64)
    ensures
        same_path_to(w, v, 0),
{
}

/// The mutating walk: descend towards the leaf slot of `v`, installing
/// a fresh zeroed table wherever the path is still unused, then place
/// the leaf mapping.  The caller has checked that the path is clear
/// and that the allocator holds enough frames, so this cannot fail.
fn map_at(
    t: &mut Table,
    level: u64,
    v: u64,
    frame: Frame,
    flags: PageFlags,
    allocator: &mut BootInfoFrameAllocator,
)
    requires
        1 <= level <= 4,
        table_wf(*old(t), level as nat),
        alloc_wf(*old(allocator)),
        path_info(*old(t), level as nat, v) is Free,
        missing_tables(*old(t), level as nat, v) <= old(allocator).spec_remaining(),
        frame.start_addr % 4096 == 0,
    ensures
        table_wf(*final(t), level as nat),
        alloc_wf(*final(allocator)),
        final(allocator).regions@ == old(allocator).regions@,
        final(allocator).next == old(allocator).next + missing_tables(*old(t), level as nat, v),
        path_info(*final(t), level as nat, v) is Occupied,
        leaf_slot(*final(t), level as nat, v) == Some(
            Slot::Leaf { addr: frame.start_addr, flags },
        ),
        forall|w: u64|
            same_path_to(w, v, level as nat) ==> translate_at(*final(t), level as nat, w) == (
            if flags.present {
                Some(((frame.start_addr + page_offset(w)) as u64))
            } else {
                None::<u64>
            }),
        forall|w: u64|
            !same_path_to(w, v, level as nat) ==> translate_at(*final(t), level as nat, w)
                == translate_at(*old(t), level as nat, w),
    decreases level,
{
    let ghost t0 = *old(t);
    let ghost lvl = level as nat;
    proof {
        lemma_level_index_bound(v, lvl);
    }
    let i = table_index(v, level);
    let slot = t.entries.remove(i);
    match slot {
        Slot::Unused => {
            if level == 1 {
                let new_slot = Slot::Leaf { addr: frame.start_addr, flags };
                t.entries.insert(i, new_slot);
                proof {
                    assert(t.entries@ =~= t0.entries@.update(i as int, new_slot));
                    lemma_update_preserves_others(t0, *t, lvl, v);
                    assert forall|w: u64| same_path_to(w, v, lvl) implies translate_at(
                        *t,
                        lvl,
                        w,
                    ) == (if flags.present {
                        Some(((frame.start_addr + page_offset(w)) as u64))
                    } else {
                        None::<u64>
                    }) by {
                        assert(level_index(w, 1) == level_index(v, 1));
                    }
                    assert forall|w: u64| !same_path_to(w, v, lvl) implies translate_at(
                        *t,
                        lvl,
                        w,
                    ) == translate_at(t0, lvl, w) by {
                        lemma_same_path_trivial(w, v);
                        lemma_same_path_step(w, v, 1);
                        assert(level_index(w, 1) != level_index(v, 1));
                    }
                    assert(path_info(*t, lvl, v) is Occupied);
                    assert forall|k: int| 0 <= k < 512 implies slot_wf(
                        #[trigger] t.entries[k],
                        lvl,
                    ) by {
                        if k != i {
                            assert(t.entries[k] == t0.entries[k]);
                        }
                    }
                }
            } else {
                let fr = match allocator.allocate_frame() {
                    Some(x) => x,
                    None => {
                        proof {
                            assert(false);
                        }
                        Frame { start_addr: 0 }
                    },
                };
                let mut child = empty_table();
                let ghost child0 = child;
                proof {
                    lemma_empty_table(child0, (lvl - 1) as nat, v);
                }
                map_at(&mut child, level - 1, v, frame, flags, allocator);
                let new_slot = Slot::Next { addr: fr.start_addr, table: child };
                t.entries.insert(i, new_slot);
                proof {
                    assert(t.entries@ =~= t0.entries@.update(i as int, new_slot));
                    lemma_update_preserves_others(t0, *t, lvl, v);
                    let child1 = t.entries[i as int]->Next_table;
                    assert(translate_at(*t, lvl, v) == translate_at(child1, (lvl - 1) as nat, v));
                    assert forall|w: u64| same_path_to(w, v, lvl) implies translate_at(
                        *t,
                        lvl,
                        w,
                    ) == (if flags.present {
                        Some(((frame.start_addr + page_offset(w)) as u64))
                    } else {
                        None::<u64>
                    }) by {
                        lemma_same_path_step(w, v, lvl);
                        assert(translate_at(*t, lvl, w) == translate_at(
                            child1,
                            (lvl - 1) as nat,
                            w,
                        ));
                    }
                    assert forall|w: u64| !same_path_to(w, v, lvl) implies translate_at(
                        *t,
                        lvl,
                        w,
                    ) == translate_at(t0, lvl, w) by {
                        lemma_same_path_step(w, v, lvl);
                        if level_index(w, lvl) == level_index(v, lvl) {
                            assert(!same_path_to(w, v, (lvl - 1) as nat));
                            assert(translate_at(*t, lvl, w) == translate_at(
                                child1,
                                (lvl - 1) as nat,
                                w,
                            ));
                            lemma_empty_table(child0, (lvl - 1) as nat, w);
                            assert(translate_at(t0, lvl, w) is None);
                        }
                    }
                    assert(path_info(*t, lvl, v) is Occupied);
                    assert forall|k: int| 0 <= k < 512 implies slot_wf(
                        #[trigger] t.entries[k],
                        lvl,
                    ) by {
                        if k != i {
                            assert(t.entries[k] == t0.entries[k]);
                        }
                    }
                }
            }
        },
        Slot::Next { addr, table } => {
            proof {
                assert(level > 1);
            }
            let ghost child0 = table;
            let mut child = table;
            map_at(&mut child, level - 1, v, frame, flags, allocator);
            let new_slot = Slot::Next { addr, table: child };
            t.entries.insert(i, new_slot);
            proof {
                assert(t.entries@ =~= t0.entries@.update(i as int, new_slot));
                lemma_update_preserves_others(t0, *t, lvl, v);
                let child1 = t.entries[i as int]->Next_table;
                assert(path_info(t0, lvl, v) == path_info(child0, (lvl - 1) as nat, v));
                assert forall|w: u64| same_path_to(w, v, lvl) implies translate_at(*t, lvl, w) == (
                if flags.present {
                    Some(((frame.start_addr + page_offset(w)) as u64))
                } else {
                    None::<u64>
                }) by {
                    lemma_same_path_step(w, v, lvl);
                    assert(translate_at(*t, lvl, w) == translate_at(child1, (lvl - 1) as nat, w));
                }
                assert forall|w: u64| !same_path_to(w, v, lvl) implies translate_at(*t, lvl, w)
                    == translate_at(t0, lvl, w) by {
                    lemma_same_path_step(w, v, lvl);
                    if level_index(w, lvl) == level_index(v, lvl) {
                        assert(!same_path_to(w, v, (lvl - 1) as nat));
                        assert(translate_at(*t, lvl, w) == translate_at(
                            child1,
                            (lvl - 1) as nat,
                            w,
                        ));
                        assert(translate_at(t0, lvl, w) == translate_at(
                            child0,
                            (lvl - 1) as nat,
                            w,
                        ));
                    }
                }
                assert(path_info(*t, lvl, v) is Occupied);
                assert forall|k: int| 0 <= k < 512 implies slot_wf(#[trigger] t.entries[k], lvl) by {
                    if k != i {
                        assert(t.entries[k] == t0.entries[k]);
                    }
                }
            }
        },
        Slot::Leaf { addr, flags: leaf_flags } => {
            proof {
                assert(false);
            }
            t.entries.insert(i, Slot::Leaf { addr, flags: leaf_flags });
        },
    }
}

impl Mapper {
    /// Construction stands in for reading the page-table-base register:
    /// the caller hands over the physical address of the active
    /// top-level table, the hierarchy it heads, and the offset at which
    /// all physical memory is mirrored into virtual addresses.  That
    /// the offset is right and that the hierarchy is held exclusively
    /// is a hardware contract the caller must uphold.
    pub fn init(physical_memory_offset: u64, root_addr: u64, root: Table) -> (m: Mapper)
        requires
            table_wf(root, 4),
        ensures
            mapper_wf(m),
            m.phys_offset == physical_memory_offset,
            m.root_addr == root_addr,
            m.root == root,
    {
        Mapper { phys_offset: physical_memory_offset, root_addr, root }
    }

    /// Walk the hierarchy for `v`: the physical address it maps to, or
    /// nothing where the walk meets an unused slot, a non-present
    /// leaf, or a huge page this design does not special-case.
    pub fn translate(&self, v: u64) -> (r: Option<u64>)
        requires
            mapper_wf(*self),
        ensures
            r == translate_at(self.root, 4, v),
    {
        translate_in(&self.root, 4, v)
    }

    /// Install a mapping from the page at `page` to `frame` with the
    /// given flags, allocating intermediate tables as needed.  Fails,
    /// leaving mapper and allocator untouched, when the page is
    /// already mapped, a huge page blocks the walk, or the allocator
    /// runs dry; each error comes exactly on its own condition.
    pub fn map_page(
        &mut self,
        page: u64,
        frame: Frame,
        flags: PageFlags,
        allocator: &mut BootInfoFrameAllocator,
    ) -> (r: Result<(), MapError>)
        requires
            mapper_wf(*old(self)),
            alloc_wf(*old(allocator)),
            page % 4096 == 0,
            frame.start_addr % 4096 == 0,
        ensures
            mapper_wf(*final(self)),
            alloc_wf(*final(allocator)),
            final(self).phys_offset == old(self).phys_offset,
            final(self).root_addr == old(self).root_addr,
            final(allocator).regions@ == old(allocator).regions@,
            r == Err::<(), MapError>(MapError::ParentHugePage) <==> path_info(
                old(self).root,
                4,
                page,
            ) is HugeParent,
            r == Err::<(), MapError>(MapError::AlreadyMapped) <==> path_info(
                old(self).root,
                4,
                page,
            ) is Occupied,
            r == Err::<(), MapError>(MapError::FrameAllocationFailed) <==> (path_info(
                old(self).root,
                4,
                page,
            ) is Free && old(allocator).spec_remaining() < missing_tables(
                old(self).root,
                4,
                page,
            )),
            r is Err ==> *final(self) == *old(self) && *final(allocator) == *old(allocator),
            r is Ok ==> {
                &&& final(allocator).next == old(allocator).next + missing_tables(
                    old(self).root,
                    4,
                    page,
                )
                &&& path_info(final(self).root, 4, page) is Occupied
                &&& leaf_slot(final(self).root, 4, page) == Some(
                    Slot::Leaf { addr: frame.start_addr, flags },
                )
                &&& forall|w: u64|
                    same_path(w, page) ==> translate_at(final(self).root, 4, w) == (
                    if flags.present {
                        Some(((frame.start_addr + page_offset(w)) as u64))
                    } else {
                        None::<u64>
                    })
                &&& forall|w: u64|
                    !same_path(w, page) ==> translate_at(final(self).root, 4, w) == translate_at(
                        old(self).root,
                        4,
                        w,
                    )
                &&& forall|off: u64|
                    off < 4096 && flags.present ==> #[trigger] translate_at(
                        final(self).root,
                        4,
                        (page + off) as u64,
                    ) == Some((frame.start_addr + off) as u64)
            },
    {
        let info = path_walk(&self.root, 4, page);
        match info {
            PathInfo::HugeParent => Err(MapError::ParentHugePage),
            PathInfo::Occupied => Err(MapError::AlreadyMapped),
            PathInfo::Free(m) => {
                if allocator.remaining() < m {
                    Err(MapError::FrameAllocationFailed)
                } else {
                    map_at(&mut self.root, 4, page, frame, flags, allocator);
                    proof {
                        assert forall|off: u64| off < 4096 && flags.present implies #[trigger] translate_at(
                            self.root,
                            4,
                            (page + off) as u64,
                        ) == Some((frame.start_addr + off) as u64) by {
                            lemma_offset_stays_in_page(page, off);
                            lemma_aligned_add_no_overflow(frame.start_addr, off);
                            assert(same_path((page + off) as u64, page));
                            assert(page_offset((page + off) as u64) == off);
                        }
                    }
                    Ok(())
                }
            },
        }
    }
}

} // verus!
