//! x86-64 paging constants and page table entry encoding.
use vstd::prelude::*;
use crate::mm::types::{CacheMode, PageTablePerms, PhysFrameNum, VirtPageNum, PERMS_EXECUTE, PERMS_GLOBAL, PERMS_USER, PERMS_WRITE};

verus! {

/// The base-2 logarithm of the page size.
pub const PAGE_SHIFT: usize = 12;
/// The size of a page, in bytes.
pub const PAGE_SIZE: usize = 4096;
/// The number of virtual address bits translated by each page table level.
pub const PT_LEVEL_SHIFT: usize = 9;
/// The number of entries in a page table.
pub const PT_ENTRY_COUNT: usize = 512;
/// Mask extracting a page table index from a shifted page number.
pub const PT_LEVEL_MASK: usize = 511;
/// The number of page table levels.
pub const PT_LEVEL_COUNT: usize = 4;

/// The first page of the physmap, the direct mapping of all physical memory (the page of virtual
/// address `0xffff_8000_0000_0000`).
pub const PHYS_MAP_BASE_PAGE: u64 = 0xf_fff8_0000_0000;
/// The number of pages reserved for the physmap (64 TiB).
pub const PHYS_MAP_MAX_PAGES: u64 = 0x4_0000_0000;
/// The first page of the low (user) half of the address space.
pub const LOW_ASPACE_BASE_PAGE: u64 = 0x1;
/// The page just past the low half of the address space.
pub const LOW_ASPACE_END_PAGE: u64 = 0x8_0000_0000;
/// The first page of the kernel's (higher) half of the address space.
pub const KERNEL_ASPACE_BASE_PAGE: u64 = 0xf_fff8_0000_0000;
/// The page just past the kernel's half of the address space (the end of the 48-bit range).
pub const KERNEL_ASPACE_END_PAGE: u64 = 0x10_0000_0000_0000;
/// The most pages of the boot heap that are mapped before the physmap exists.
pub const BOOTHEAP_EARLYMAP_MAX_PAGES: usize = 0x200;

/// The first page of the physmap.
pub open spec fn spec_phys_map_base() -> usize {
    PHYS_MAP_BASE_PAGE as usize
}

/// The number of pages reserved for the physmap.
pub open spec fn spec_phys_map_max_pages() -> usize {
    PHYS_MAP_MAX_PAGES as usize
}

/// The page just past the low half of the address space.
pub open spec fn spec_low_aspace_end() -> usize {
    LOW_ASPACE_END_PAGE as usize
}

/// The first page of the physmap.
pub fn phys_map_base() -> (r: VirtPageNum)
    ensures
        r@ == spec_phys_map_base(),
{
    #[verifier::truncate]
    let v = PHYS_MAP_BASE_PAGE as usize;
    VirtPageNum::new(v)
}

/// The number of pages reserved for the physmap.
pub fn phys_map_max_pages() -> (r: usize)
    ensures
        r == spec_phys_map_max_pages(),
{
    #[verifier::truncate]
    let v = PHYS_MAP_MAX_PAGES as usize;
    v
}

/// The first page of the low half of the address space.
pub open spec fn spec_low_aspace_base() -> usize {
    LOW_ASPACE_BASE_PAGE as usize
}

/// The first page of the low half of the address space.
pub fn low_aspace_base() -> (r: VirtPageNum)
    ensures
        r@ == spec_low_aspace_base(),
{
    #[verifier::truncate]
    let v = LOW_ASPACE_BASE_PAGE as usize;
    VirtPageNum::new(v)
}

/// The first page of the kernel's half of the address space.
pub open spec fn spec_kernel_aspace_base() -> usize {
    KERNEL_ASPACE_BASE_PAGE as usize
}

/// The page just past the kernel's half of the address space.
pub open spec fn spec_kernel_aspace_end() -> usize {
    KERNEL_ASPACE_END_PAGE as usize
}

/// The first page of the kernel's half of the address space.
pub fn kernel_aspace_base() -> (r: VirtPageNum)
    ensures
        r@ == spec_kernel_aspace_base(),
{
    #[verifier::truncate]
    let v = KERNEL_ASPACE_BASE_PAGE as usize;
    VirtPageNum::new(v)
}

/// The page just past the kernel's half of the address space.
pub fn kernel_aspace_end() -> (r: VirtPageNum)
    ensures
        r@ == spec_kernel_aspace_end(),
{
    #[verifier::truncate]
    let v = KERNEL_ASPACE_END_PAGE as usize;
    VirtPageNum::new(v)
}

/// The page just past the low half of the address space.
pub fn low_aspace_end() -> (r: VirtPageNum)
    ensures
        r@ == spec_low_aspace_end(),
{
    #[verifier::truncate]
    let v = LOW_ASPACE_END_PAGE as usize;
    VirtPageNum::new(v)
}

/// Physical frames that must never be handed out: the legacy real-mode area below 1 MiB.
pub fn reserved_ranges() -> (r: (PhysFrameNum, PhysFrameNum))
    ensures
        r.0@ == 0,
        r.1@ == 0x100,
{
    (PhysFrameNum::new(0), PhysFrameNum::new(0x100))
}

/// A raw page table entry.
pub type PageTableEntry = u64;

/// The "present" bit of an entry.
pub const PTE_PRESENT: u64 = 0x1;
/// The "writable" bit of an entry.
pub const PTE_WRITE: u64 = 0x2;
/// The "user accessible" bit of an entry.
pub const PTE_USER: u64 = 0x4;
/// The "write-through" cache bit of an entry.
pub const PTE_WRITE_THROUGH: u64 = 0x8;
/// The "cache disable" bit of an entry.
pub const PTE_CACHE_DISABLE: u64 = 0x10;
/// The "large page" bit of a non-leaf-level entry.
pub const PTE_LARGE: u64 = 0x80;
/// The "global" bit of an entry.
pub const PTE_GLOBAL: u64 = 0x100;
/// The "no execute" bit of an entry.
pub const PTE_NO_EXEC: u64 = 0x8000_0000_0000_0000;
/// The bits of an entry holding the physical address it points to.
pub const PTE_ADDR_MASK: u64 = 0x000f_ffff_ffff_f000;
/// The bits of an entry holding access permissions and caching attributes.
pub const PTE_ATTR_MASK: u64 = 0x8000_0000_0000_011e;

/// The largest frame number that a page table entry can hold, plus one.
pub open spec fn max_pte_frame() -> int {
    0x100_0000_0000
}

/// Whether an entry is marked present.
pub open spec fn spec_pte_is_present(pte: PageTableEntry) -> bool {
    pte & PTE_PRESENT != 0
}

/// Whether an entry at `level` maps a page directly rather than pointing to another table.
pub open spec fn spec_pte_is_terminal(pte: PageTableEntry, level: usize) -> bool {
    level == 0 || pte & PTE_LARGE != 0
}

/// The frame number stored in an entry.
pub open spec fn spec_pte_frame(pte: PageTableEntry) -> usize {
    ((pte & PTE_ADDR_MASK) >> 12u64) as usize
}

/// Returns an entry that maps nothing.
pub fn make_empty_pte() -> (r: PageTableEntry)
    ensures
        r == 0,
        !spec_pte_is_present(r),
{
    assert(0u64 & PTE_PRESENT == 0) by (bit_vector);
    0
}

/// Whether `pte` is marked present at `level`.
pub fn pte_is_present(pte: PageTableEntry, level: usize) -> (r: bool)
    ensures
        r == spec_pte_is_present(pte),
{
    pte & PTE_PRESENT != 0
}

/// Whether `pte` at `level` maps a page rather than pointing to a further table.
pub fn pte_is_terminal(pte: PageTableEntry, level: usize) -> (r: bool)
    ensures
        r == spec_pte_is_terminal(pte, level),
{
    level == 0 || pte & PTE_LARGE != 0
}

/// The frame number that `pte` points to.
pub fn get_pte_frame(pte: PageTableEntry, level: usize) -> (r: usize)
    ensures
        r == spec_pte_frame(pte),
        r < max_pte_frame(),
{
    let v = (pte & PTE_ADDR_MASK) >> 12u64;
    assert(v < 0x100_0000_0000u64) by (bit_vector)
        requires v == (pte & 0x000f_ffff_ffff_f000u64) >> 12u64;
    #[verifier::truncate]
    let r = v as usize;
    r
}

/// Whether pages of the size mapped by one entry at `level` can be mapped directly.
pub fn supports_page_size(level: usize) -> (r: bool)
    ensures
        r == (level <= 2),
{
    level <= 2
}

proof fn lemma_frame_roundtrip(pfn: u64, attrs: u64)
    requires
        attrs & 0x000f_ffff_ffff_f000u64 == 0,
    ensures
        pfn < 0x100_0000_0000u64 ==> ((((pfn << 12u64) & 0x000f_ffff_ffff_f000u64) | attrs)
            & 0x000f_ffff_ffff_f000u64) >> 12u64 == pfn,
        (((pfn << 12u64) & 0x000f_ffff_ffff_f000u64) | attrs) & 1u64 == attrs & 1u64,
        (((pfn << 12u64) & 0x000f_ffff_ffff_f000u64) | attrs) & 0x80u64 == attrs & 0x80u64,
{
    assert(pfn < 0x100_0000_0000u64 ==> ((((pfn << 12u64) & 0x000f_ffff_ffff_f000u64) | attrs)
        & 0x000f_ffff_ffff_f000u64) >> 12u64 == pfn) by (bit_vector)
        requires
            attrs & 0x000f_ffff_ffff_f000u64 == 0;
    assert((((pfn << 12u64) & 0x000f_ffff_ffff_f000u64) | attrs) & 1u64 == attrs & 1u64)
        by (bit_vector);
    assert((((pfn << 12u64) & 0x000f_ffff_ffff_f000u64) | attrs) & 0x80u64 == attrs & 0x80u64)
        by (bit_vector);
}

/// Returns an entry at `level` pointing to the page table in frame `table`.
pub fn make_intermediate_pte(level: usize, table: usize) -> (r: PageTableEntry)
    requires
        level > 0,
    ensures
        spec_pte_is_present(r),
        !spec_pte_is_terminal(r, level),
        table < max_pte_frame() ==> spec_pte_frame(r) == table,
{
    let pfn = table as u64;
    let attrs: u64 = PTE_PRESENT | PTE_WRITE | PTE_USER;
    proof {
        assert(attrs == 7u64) by (bit_vector)
            requires attrs == (1u64 | 2u64 | 4u64);
        assert(7u64 & 0x000f_ffff_ffff_f000u64 == 0) by (bit_vector);
        assert(7u64 & 1u64 == 1u64 && 7u64 & 0x80u64 == 0) by (bit_vector);
        lemma_frame_roundtrip(pfn, attrs);
    }
    ((pfn << 12u64) & PTE_ADDR_MASK) | attrs
}

/// The entry attribute bits granting `perms`: write, user and global as `perms` has them, and
/// no-execute unless `perms` allows execution.
pub open spec fn spec_perm_bits(perms: PageTablePerms) -> u64 {
    (if perms@ & PERMS_WRITE == PERMS_WRITE { PTE_WRITE } else { 0u64 })
        | (if perms@ & PERMS_USER == PERMS_USER { PTE_USER } else { 0u64 })
        | (if perms@ & PERMS_GLOBAL == PERMS_GLOBAL { PTE_GLOBAL } else { 0u64 })
        | (if perms@ & PERMS_EXECUTE == PERMS_EXECUTE { 0u64 } else { PTE_NO_EXEC })
}

/// Each permission of `perms` shows in its own bit of the entry attributes: writable (bit 1)
/// with `PERMS_WRITE` (flag 0x2), user-accessible (bit 2) with `PERMS_USER` (flag 0x8), global
/// (bit 8) with `PERMS_GLOBAL` (flag 0x10), and no-execute (bit 63) without `PERMS_EXECUTE`
/// (flag 0x4); no other bit is set.
pub proof fn law_perm_bits(perms: PageTablePerms)
    ensures
        (spec_perm_bits(perms) & 0x2u64 != 0) == (perms@ & 0x2u8 != 0),
        (spec_perm_bits(perms) & 0x4u64 != 0) == (perms@ & 0x8u8 != 0),
        (spec_perm_bits(perms) & 0x100u64 != 0) == (perms@ & 0x10u8 != 0),
        (spec_perm_bits(perms) & 0x8000_0000_0000_0000u64 != 0) == (perms@ & 0x4u8 == 0),
        spec_perm_bits(perms) & !0x8000_0000_0000_0106u64 == 0,
{
    let p = perms@;
    let w = if p & 2u8 == 2u8 { 2u64 } else { 0u64 };
    let u = if p & 8u8 == 8u8 { 4u64 } else { 0u64 };
    let g = if p & 0x10u8 == 0x10u8 { 0x100u64 } else { 0u64 };
    let x = if p & 4u8 == 4u8 { 0u64 } else { 0x8000_0000_0000_0000u64 };
    let r = spec_perm_bits(perms);
    assert(r == w | u | g | x);
    assert(((p & 2u8 == 2u8) == (p & 2u8 != 0) && (p & 8u8 == 8u8) == (p & 8u8 != 0) && (p & 0x10u8
        == 0x10u8) == (p & 0x10u8 != 0) && (p & 4u8 == 4u8) == (p & 4u8 != 0)) && ((w == 0 || w == 2) && (u == 0 || u == 4) && (g == 0 || g == 0x100) && (x == 0 || x
        == 0x8000_0000_0000_0000u64) && r == w | u | g | x ==> {
        &&& (r & 2u64 != 0) == (w != 0)
        &&& (r & 4u64 != 0) == (u != 0)
        &&& (r & 0x100u64 != 0) == (g != 0)
        &&& (r & 0x8000_0000_0000_0000u64 != 0) == (x != 0)
        &&& r & !0x8000_0000_0000_0106u64 == 0
    })) by (bit_vector);
}

/// An entry whose permission bits are `q` has each of those bits set exactly when `q` does.
pub proof fn lemma_masked_perm_bits(e: u64, q: u64)
    ensures
        e & (PTE_WRITE | PTE_USER | PTE_GLOBAL | PTE_NO_EXEC) == q ==> {
            &&& (e & 2u64 != 0) == (q & 2u64 != 0)
            &&& (e & 4u64 != 0) == (q & 4u64 != 0)
            &&& (e & 0x100u64 != 0) == (q & 0x100u64 != 0)
            &&& (e & 0x8000_0000_0000_0000u64 != 0) == (q & 0x8000_0000_0000_0000u64 != 0)
        },
{
    assert(e & (2u64 | 4u64 | 0x100u64 | 0x8000_0000_0000_0000u64) == q ==> (e & 2u64 != 0) == (q & 2u64
        != 0) && (e & 4u64 != 0) == (q & 4u64 != 0) && (e & 0x100u64 != 0) == (q & 0x100u64 != 0) && (e
        & 0x8000_0000_0000_0000u64 != 0) == (q & 0x8000_0000_0000_0000u64 != 0)) by (bit_vector);
}

/// The entry attribute bits granting `perms`.
pub fn perm_bits(perms: PageTablePerms) -> (r: u64)
    ensures
        r == spec_perm_bits(perms),
        r & PTE_ADDR_MASK == 0,
        r & PTE_PRESENT == 0,
        r & PTE_LARGE == 0,
        r & (PTE_WRITE | PTE_USER | PTE_GLOBAL | PTE_NO_EXEC) == r,
{
    let w: u64 = if perms.contains(PERMS_WRITE) {
        PTE_WRITE
    } else {
        0
    };
    let u: u64 = if perms.contains(PERMS_USER) {
        PTE_USER
    } else {
        0
    };
    let g: u64 = if perms.contains(PERMS_GLOBAL) {
        PTE_GLOBAL
    } else {
        0
    };
    let x: u64 = if perms.contains(PERMS_EXECUTE) {
        0
    } else {
        PTE_NO_EXEC
    };
    let r = w | u | g | x;
    assert((w == 0 || w == 2) && (u == 0 || u == 4) && (g == 0 || g == 0x100) && (x == 0 || x
        == 0x8000_0000_0000_0000u64) ==> (w | u | g | x) & 0x000f_ffff_ffff_f000u64 == 0 && (w | u
        | g | x) & 1u64 == 0 && (w | u | g | x) & 0x80u64 == 0 && (w | u | g | x) & (2u64 | 4u64
        | 0x100u64 | 0x8000_0000_0000_0000u64) == (w | u | g | x)) by (bit_vector);
    r
}

/// The entry attribute bits selecting `cache_mode`: write-through or cache-disabled, or neither
/// for cached memory.
pub open spec fn spec_cache_bits(cache_mode: CacheMode) -> u64 {
    match cache_mode {
        CacheMode::Cached => 0u64,
        CacheMode::WriteBack => 0u64,
        CacheMode::WriteThrough => PTE_WRITE_THROUGH,
        CacheMode::Uncached => PTE_CACHE_DISABLE,
    }
}

/// The entry attribute bits selecting `cache_mode`.
pub fn cache_bits(cache_mode: CacheMode) -> (r: u64)
    ensures
        r == spec_cache_bits(cache_mode),
        r & PTE_ADDR_MASK == 0,
        r & PTE_PRESENT == 0,
        r & PTE_LARGE == 0,
{
    let r = match cache_mode {
        CacheMode::Cached => 0u64,
        CacheMode::WriteBack => 0u64,
        CacheMode::WriteThrough => PTE_WRITE_THROUGH,
        CacheMode::Uncached => PTE_CACHE_DISABLE,
    };
    assert(r == 0 || r == 8 || r == 0x10 ==> r & 0x000f_ffff_ffff_f000u64 == 0 && r & 1u64 == 0
        && r & 0x80u64 == 0) by (bit_vector);
    r
}

/// Returns an entry at `level` mapping the page (or large page) at frame `frame`.
pub fn make_terminal_pte(
    level: usize,
    frame: usize,
    perms: PageTablePerms,
    cache_mode: CacheMode,
) -> (r: PageTableEntry)
    ensures
        spec_pte_is_present(r),
        spec_pte_is_terminal(r, level),
        frame < max_pte_frame() ==> spec_pte_frame(r) == frame,
        r & (PTE_WRITE | PTE_USER | PTE_GLOBAL | PTE_NO_EXEC) == spec_perm_bits(perms),
        r & (PTE_WRITE_THROUGH | PTE_CACHE_DISABLE) == spec_cache_bits(cache_mode),
        (r & 0x2u64 != 0) == (perms@ & 0x2u8 != 0),
        (r & 0x4u64 != 0) == (perms@ & 0x8u8 != 0),
        (r & 0x100u64 != 0) == (perms@ & 0x10u8 != 0),
        (r & 0x8000_0000_0000_0000u64 != 0) == (perms@ & 0x4u8 == 0),
{
    let pfn = frame as u64;
    let large: u64 = if level > 0 {
        PTE_LARGE
    } else {
        0
    };
    let p = perm_bits(perms);
    let c = cache_bits(cache_mode);
    let attrs = p | c | large | PTE_PRESENT;
    proof {
        assert(p & 0x000f_ffff_ffff_f000u64 == 0 && c & 0x000f_ffff_ffff_f000u64 == 0 && (large
            == 0 || large == 0x80) ==> (p | c | large | 1u64) & 0x000f_ffff_ffff_f000u64 == 0)
            by (bit_vector);
        lemma_frame_roundtrip(pfn, attrs);
        assert((p | c | large | 1u64) & 1u64 == 1u64) by (bit_vector);
        assert(large == 0x80 ==> (p | c | large | 1u64) & 0x80u64 != 0) by (bit_vector);
        assert(p & (2u64 | 4u64 | 0x100u64 | 0x8000_0000_0000_0000u64) == p && (c == 0 || c == 8 || c == 0x10)
            && (large == 0 || large == 0x80) ==> (((pfn << 12u64) & 0x000f_ffff_ffff_f000u64) | (p | c
            | large | 1u64)) & (2u64 | 4u64 | 0x100u64 | 0x8000_0000_0000_0000u64) == p && (((pfn
            << 12u64) & 0x000f_ffff_ffff_f000u64) | (p | c | large | 1u64)) & (8u64 | 0x10u64) == c)
            by (bit_vector);
        law_perm_bits(perms);
        lemma_masked_perm_bits(((pfn << 12u64) & PTE_ADDR_MASK) | attrs, spec_perm_bits(perms));
    }
    ((pfn << 12u64) & PTE_ADDR_MASK) | attrs
}

/// Replaces the permission bits of `pte` with those granting `perms`, keeping the frame, the
/// present bit and the large page bit.
pub fn update_pte_perms(pte: PageTableEntry, level: usize, perms: PageTablePerms) -> (r:
    PageTableEntry)
    ensures
        spec_pte_is_present(r) == spec_pte_is_present(pte),
        spec_pte_is_terminal(r, level) == spec_pte_is_terminal(pte, level),
        (r & PTE_LARGE != 0) == (pte & PTE_LARGE != 0),
        spec_pte_frame(r) == spec_pte_frame(pte),
        r == (pte & !(PTE_WRITE | PTE_USER | PTE_GLOBAL | PTE_NO_EXEC)) | spec_perm_bits(perms),
{
    let p = perm_bits(perms);
    let cleared = pte & !(PTE_WRITE | PTE_USER | PTE_GLOBAL | PTE_NO_EXEC);
    let r = cleared | p;
    assert(p & 0x000f_ffff_ffff_f000u64 == 0 && p & 1u64 == 0 && p & 0x80u64 == 0 ==> {
        &&& (((pte & !(2u64 | 4u64 | 0x100u64 | 0x8000_0000_0000_0000u64)) | p) & 1u64 != 0) == (
        pte & 1u64 != 0)
        &&& (((pte & !(2u64 | 4u64 | 0x100u64 | 0x8000_0000_0000_0000u64)) | p) & 0x80u64 != 0)
            == (pte & 0x80u64 != 0)
        &&& (((pte & !(2u64 | 4u64 | 0x100u64 | 0x8000_0000_0000_0000u64)) | p)
            & 0x000f_ffff_ffff_f000u64) == (pte & 0x000f_ffff_ffff_f000u64)
    }) by (bit_vector);
    r
}

} // verus!
