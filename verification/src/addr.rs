//! Page-size constants and the bit arithmetic that splits a virtual
//! address into its per-level table indices and its in-page offset.

use vstd::prelude::*;

verus! {

/// Size in bytes of one page and of one physical frame.
pub const PAGE_SIZE: u64 = 4096;

/// Number of entries in one page table.
pub const TABLE_LEN: usize = 512;

/// An address that is a whole number of pages from zero.
pub open spec fn page_aligned(a: u64) -> bool {
    a % 4096 == 0
}

/// Byte offset of `v` within its page.
pub open spec fn page_offset(v: u64) -> u64 {
    v & 0xfff
}

/// How far the index bits of `level` sit from bit zero.
/// Level 1 holds the leaf tables, level 4 the root.
pub open spec fn level_shift(level: nat) -> u64
    recommends
        1 <= level <= 4,
{
    (12 + 9 * (level - 1)) as u64
}

/// Index of `v` into the table at `level`: nine bits per level.
pub open spec fn level_index(v: u64, level: nat) -> u64 {
    (v >> level_shift(level)) & 0x1ff
}

/// Two addresses agree on the walk down to `level`: their indices are
/// equal at `level` and at every level below it.
pub open spec fn same_path_to(w: u64, v: u64, level: nat) -> bool {
    forall|l: nat| 1 <= l <= level ==> level_index(w, l) == level_index(v, l)
}

/// Two addresses walk through the same chain of table slots exactly
/// when their indices agree at every level.
pub open spec fn same_path(w: u64, v: u64) -> bool {
    same_path_to(w, v, 4)
}

/// An index of a table walk is always below the table length.
pub proof fn lemma_level_index_bound(v: u64, level: nat)
    requires
        1 <= level <= 4,
    ensures
        level_index(v, level) < 512,
{
    let s = level_shift(level);
    assert((v >> s) & 0x1ff < 512) by (bit_vector);
}

/// Agreement down to `level` splits into agreement at `level` and
/// agreement below it.
pub proof fn lemma_same_path_step(w: u64, v: u64, level: nat)
    requires
        1 <= level <= 4,
    ensures
        same_path_to(w, v, level) <==> (same_path_to(w, v, (level - 1) as nat) && level_index(
            w,
            level,
        ) == level_index(v, level)),
{
    if same_path_to(w, v, (level - 1) as nat) && level_index(w, level) == level_index(v, level) {
        assert forall|l: nat| 1 <= l <= level implies level_index(w, l) == level_index(v, l) by {
            if l < level {
                assert(level_index(w, l) == level_index(v, l));
            }
        }
    }
}

/// Executable form of `level_index`.
pub fn table_index(v: u64, level: u64) -> (i: usize)
    requires
        1 <= level <= 4,
    ensures
        i == level_index(v, level as nat),
        i < 512,
{
    let shift: u64 = 12 + 9 * (level - 1);
    proof {
        assert(shift == level_shift(level as nat));
        assert((v >> shift) & 0x1ff < 512) by (bit_vector);
    }
    ((v >> shift) & 0x1ff) as usize
}

/// Executable form of `page_offset`.
pub fn offset_in_page(v: u64) -> (o: u64)
    ensures
        o == page_offset(v),
        o < 4096,
{
    proof {
        assert(v & 0xfff < 4096) by (bit_vector);
    }
    v & 0xfff
}

/// A page-aligned address leaves all of the bottom twelve bits free:
/// adding an in-page offset overflows nothing, lands in the same page
/// at every level of the walk, and is recovered by `page_offset`.
pub proof fn lemma_offset_stays_in_page(v: u64, off: u64)
    requires
        page_aligned(v),
        off < 4096,
    ensures
        v <= 0xffff_ffff_ffff_f000u64,
        page_offset((v + off) as u64) == off,
        forall|l: nat| 1 <= l <= 4 ==> level_index((v + off) as u64, l) == level_index(v, l),
        same_path((v + off) as u64, v),
{
    assert(v % 4096 == 0 ==> v <= 0xffff_ffff_ffff_f000u64) by (bit_vector);
    let w = (v + off) as u64;
    assert((v % 4096 == 0 && off < 4096) ==> (((v + off) as u64) & 0xfff) == off) by (bit_vector);
    assert((v % 4096 == 0 && off < 4096) ==> (((v + off) as u64) >> 12) & 0x1ff == (v >> 12)
        & 0x1ff) by (bit_vector);
    assert((v % 4096 == 0 && off < 4096) ==> (((v + off) as u64) >> 21) & 0x1ff == (v >> 21)
        & 0x1ff) by (bit_vector);
    assert((v % 4096 == 0 && off < 4096) ==> (((v + off) as u64) >> 30) & 0x1ff == (v >> 30)
        & 0x1ff) by (bit_vector);
    assert((v % 4096 == 0 && off < 4096) ==> (((v + off) as u64) >> 39) & 0x1ff == (v >> 39)
        & 0x1ff) by (bit_vector);
    assert forall|l: nat| 1 <= l <= 4 implies level_index(w, l) == level_index(v, l) by {
        if l == 1 {
            assert(level_shift(l) == 12);
        } else if l == 2 {
            assert(level_shift(l) == 21);
        } else if l == 3 {
            assert(level_shift(l) == 30);
        } else {
            assert(level_shift(l) == 39);
        }
    }
}

/// An aligned address plus an in-page offset never overflows.
pub proof fn lemma_aligned_add_no_overflow(a: u64, off: u64)
    requires
        page_aligned(a),
        off < 4096,
    ensures
        a + off <= u64::MAX,
{
    assert(a % 4096 == 0 ==> a <= 0xffff_ffff_ffff_f000u64) by (bit_vector);
}

} // verus!
