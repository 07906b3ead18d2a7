//! The four-level page-table hierarchy, modelled as an owned tree of
//! fixed-size tables.  Each slot of a table is unused, points to the
//! next-deeper table, or holds a leaf mapping; a leaf above level one
//! is a huge page, which this minimal design reports as unsupported
//! rather than mis-translating.

use vstd::prelude::*;
use crate::addr::{
    level_index, page_offset, table_index, offset_in_page, lemma_level_index_bound,
    lemma_aligned_add_no_overflow,
};

verus! {

/// Access flags of a leaf mapping.
#[derive(Clone, Copy, PartialEq, Eq, Structural, Debug)]
pub struct PageFlags {
    pub present: bool,
    pub writable: bool,
}

/// One entry of a page table.  A `Next` slot is implicitly present;
/// its `addr` is the physical frame that backs the deeper table.
pub enum Slot {
    Unused,
    Next { addr: u64, table: Table },
    Leaf { addr: u64, flags: PageFlags },
}

/// One page table: 512 slots of 8 bytes each on the target hardware.
pub struct Table {
    pub entries: Vec<Slot>,
}

/// Well-formedness of a slot found at `level`: deeper tables only
/// above level one, and a leaf at level one maps a whole frame.
pub open spec fn slot_wf(s: Slot, level: nat) -> bool
    decreases level, 0int,
{
    match s {
        Slot::Unused => true,
        Slot::Next { addr, table } => level > 1 && table_wf(table, (level - 1) as nat),
        Slot::Leaf { addr, flags } => level == 1 ==> addr % 4096 == 0,
    }
}

/// Well-formedness of a table standing at `level` of the hierarchy.
pub open spec fn table_wf(t: Table, level: nat) -> bool
    decreases level, 1int,
{
    &&& 1 <= level <= 4
    &&& t.entries.len() == 512
    &&& forall|i: int| 0 <= i < 512 ==> slot_wf(#[trigger] t.entries[i], level)
}

/// The walk from a table at `level` down to the leaf: the physical
/// address `v` maps to, or nothing where a slot is unused, a leaf is
/// not present, or a huge page stands in the way.
pub open spec fn translate_at(t: Table, level: nat, v: u64) -> Option<u64>
    decreases level,
{
    if level < 1 {
        None
    } else {
        match t.entries[level_index(v, level) as int] {
            Slot::Unused => None,
            Slot::Next { addr, table } => if level == 1 {
                None
            } else {
                translate_at(table, (level - 1) as nat, v)
            },
            Slot::Leaf { addr, flags } => if level == 1 && flags.present {
                Some(((addr + page_offset(v)) as u64))
            } else {
                None
            },
        }
    }
}

/// The leaf slot the walk for `v` ends at, where the path is complete
/// down to level one: the full content of the installed mapping, its
/// flags included.
pub open spec fn leaf_slot(t: Table, level: nat, v: u64) -> Option<Slot>
    decreases level,
{
    if level < 1 {
        None
    } else {
        let s = t.entries[level_index(v, level) as int];
        match s {
            Slot::Unused => None,
            Slot::Next { addr, table } => if level == 1 {
                None
            } else {
                leaf_slot(table, (level - 1) as nat, v)
            },
            Slot::Leaf { addr, flags } => if level == 1 {
                Some(s)
            } else {
                None
            },
        }
    }
}

/// What the walk for `v` finds below a table at `level`.
#[derive(Clone, Copy, PartialEq, Eq, Structural, Debug)]
pub enum PathInfo {
    /// A huge-page leaf sits on the path above level one.
    HugeParent,
    /// The leaf slot already holds a mapping.
    Occupied,
    /// The path is clear; the payload counts the intermediate tables
    /// still missing before a leaf can be installed.
    Free(u64),
}

pub open spec fn path_info(t: Table, level: nat, v: u64) -> PathInfo
    decreases level,
{
    if level < 1 {
        PathInfo::Free(0)
    } else {
        match t.entries[level_index(v, level) as int] {
            Slot::Unused => PathInfo::Free((level - 1) as u64),
            Slot::Next { addr, table } => if level == 1 {
                PathInfo::Occupied
            } else {
                path_info(table, (level - 1) as nat, v)
            },
            Slot::Leaf { addr, flags } => if level == 1 {
                PathInfo::Occupied
            } else {
                PathInfo::HugeParent
            },
        }
    }
}

/// The number of intermediate tables missing on the walk for `v`.
pub open spec fn missing_tables(t: Table, level: nat, v: u64) -> u64 {
    match path_info(t, level, v) {
        PathInfo::Free(m) => m,
        _ => 0,
    }
}

/// A table whose slots are all unused.
pub fn empty_table() -> (t: Table)
    ensures
        t.entries@.len() == 512,
        forall|i: int| 0 <= i < 512 ==> t.entries@[i] is Unused,
        forall|level: nat| 1 <= level <= 4 ==> table_wf(t, level),
{
    let mut entries: Vec<Slot> = Vec::new();
    let mut i: usize = 0;
    while i < 512
        invariant
            entries@.len() == i,
            i <= 512,
            forall|j: int| 0 <= j < i ==> entries@[j] is Unused,
        decreases 512 - i,
    {
        entries.push(Slot::Unused);
        i = i + 1;
    }
    Table { entries }
}

/// In an all-unused table every walk ends at once: nothing translates,
/// and the path for any address is clear with `level - 1` tables to go.
pub proof fn lemma_empty_table(t: Table, level: nat, v: u64)
    requires
        1 <= level <= 4,
        t.entries.len() == 512,
        forall|i: int| 0 <= i < 512 ==> t.entries[i] is Unused,
    ensures
        translate_at(t, level, v) is None,
        path_info(t, level, v) == PathInfo::Free((level - 1) as u64),
        leaf_slot(t, level, v) is None,
{
    lemma_level_index_bound(v, level);
}

/// The walk for `w` reads only the slot at `w`'s index: two tables that
/// agree there translate `w` alike and report the same path.
pub proof fn lemma_walk_reads_one_slot(t1: Table, t0: Table, level: nat, w: u64)
    requires
        1 <= level <= 4,
        t1.entries.len() == 512,
        t0.entries.len() == 512,
        t1.entries[level_index(w, level) as int] == t0.entries[level_index(w, level) as int],
    ensures
        translate_at(t1, level, w) == translate_at(t0, level, w),
        path_info(t1, level, w) == path_info(t0, level, w),
        leaf_slot(t1, level, w) == leaf_slot(t0, level, w),
{
    lemma_level_index_bound(w, level);
}

/// Executable check that a tree of tables is well formed, used to
/// validate the hierarchy handed over at boot.
pub fn check_table(t: &Table, level: u64) -> (b: bool)
    requires
        1 <= level <= 4,
    ensures
        b == table_wf(*t, level as nat),
    decreases level,
{
    if t.entries.len() != 512 {
        return false;
    }
    let mut i: usize = 0;
    while i < 512
        invariant
            1 <= level <= 4,
            t.entries.len() == 512,
            i <= 512,
            forall|j: int| 0 <= j < i ==> slot_wf(#[trigger] t.entries[j], level as nat),
        decreases 512 - i,
    {
        match &t.entries[i] {
            Slot::Unused => {},
            Slot::Leaf { addr, flags } => {
                if level == 1 && *addr % 4096 != 0 {
                    proof {
                        assert(!slot_wf(t.entries[i as int], level as nat));
                    }
                    return false;
                }
            },
            Slot::Next { addr, table } => {
                if level == 1 {
                    proof {
                        assert(!slot_wf(t.entries[i as int], level as nat));
                    }
                    return false;
                }
                if !check_table(table, level - 1) {
                    proof {
                        assert(!slot_wf(t.entries[i as int], level as nat));
                    }
                    return false;
                }
            },
        }
        i = i + 1;
    }
    true
}

/// A page that translates to a physical address is occupied, so a
/// second request to map it is rejected rather than overwritten, and
/// the walk itself is left exactly as it was.
pub proof fn lemma_translated_means_occupied(t: Table, level: nat, v: u64)
    requires
        1 <= level <= 4,
        translate_at(t, level, v) is Some,
    ensures
        path_info(t, level, v) is Occupied,
    decreases level,
{
    match t.entries[level_index(v, level) as int] {
        Slot::Next { addr, table } => {
            if level > 1 {
                lemma_translated_means_occupied(table, (level - 1) as nat, v);
            }
        },
        _ => {},
    }
}

/// Executable classification of the walk for `v`, read-only.
pub fn path_walk(t: &Table, level: u64, v: u64) -> (p: PathInfo)
    requires
        1 <= level <= 4,
        table_wf(*t, level as nat),
    ensures
        p == path_info(*t, level as nat, v),
    decreases level,
{
    let i = table_index(v, level);
    match &t.entries[i] {
        Slot::Unused => PathInfo::Free(level - 1),
        Slot::Next { addr, table } => {
            if level == 1 {
                proof {
                    assert(false);
                }
                PathInfo::Occupied
            } else {
                path_walk(table, level - 1, v)
            }
        },
        Slot::Leaf { addr, flags } => {
            if level == 1 {
                PathInfo::Occupied
            } else {
                PathInfo::HugeParent
            }
        },
    }
}

/// Executable walk of the hierarchy below a table at `level`.
pub fn translate_in(t: &Table, level: u64, v: u64) -> (r: Option<u64>)
    requires
        1 <= level <= 4,
        table_wf(*t, level as nat),
    ensures
        r == translate_at(*t, level as nat, v),
    decreases level,
{
    let i = table_index(v, level);
    match &t.entries[i] {
        Slot::Unused => None,
        Slot::Next { addr, table } => {
            if level == 1 {
                proof {
                    assert(false);
                }
                None
            } else {
                translate_in(table, level - 1, v)
            }
        },
        Slot::Leaf { addr, flags } => {
            if level == 1 && flags.present {
                proof {
                    assert(v & 0xfff < 4096) by (bit_vector);
                    lemma_aligned_add_no_overflow(*addr, page_offset(v));
                }
                Some(*addr + offset_in_page(v))
            } else {
                None
            }
        },
    }
}

} // verus!
