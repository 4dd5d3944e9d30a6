//! Low-level page table manipulation and traversal.
pub mod walk;
pub mod map;
use vstd::prelude::*;
use vstd::arithmetic::power2::pow2;
use std::collections::HashMap;
use crate::arch::{
    spec_cache_bits, spec_perm_bits, PTE_CACHE_DISABLE, PTE_WRITE_THROUGH, PTE_GLOBAL, PTE_NO_EXEC, PTE_USER, PTE_WRITE,
    get_pte_frame, make_empty_pte, make_intermediate_pte, make_terminal_pte, max_pte_frame,
    pte_is_present, pte_is_terminal, spec_pte_frame, spec_pte_is_present, spec_pte_is_terminal,
    supports_page_size, update_pte_perms, PageTableEntry, PTE_LARGE, PT_ENTRY_COUNT, PT_LEVEL_COUNT,
    PT_LEVEL_SHIFT,
};
use crate::err::{Error, Result};
use super::types::{
    CacheMode, PageTablePerms, PhysFrameNum, VirtPageNum, spec_pt_index, PERMS_EXECUTE, PERMS_GLOBAL,
    PERMS_USER, PERMS_WRITE,
};

verus! {

/// An object that can translate physical frame numbers to virtual page numbers that can be used to
/// access them.
pub trait TranslatePhys {
    /// Whether `phys` can be translated.
    spec fn covers(&self, phys: PhysFrameNum) -> bool;

    /// The page through which `phys` is accessed.
    spec fn spec_translate(&self, phys: PhysFrameNum) -> VirtPageNum;

    /// Translates `phys` to a virtual page number that can be used to access it.
    fn translate(&self, phys: PhysFrameNum) -> (r: VirtPageNum)
        requires
            self.covers(phys),
        ensures
            r == self.spec_translate(phys),
    ;
}

/// An allocator responsible for allocating physical frames for use as page tables.
pub trait PageTableAlloc {
    /// Whether the allocator can be asked for a table.
    spec fn ready(&self) -> bool;

    /// Whether `frame` may be handed out by a later allocation.
    spec fn may_hand_out(&self, frame: usize) -> bool;

    /// Whether the allocator hands out each frame at most once: a frame handed out is one that
    /// it could hand out before, and can hand out no more.
    spec fn hands_out_fresh(&self) -> bool;

    /// How many tables the allocator can still be counted on to hand out.
    spec fn available(&self) -> nat;

    /// The bounds of the memory that the allocator hands frames out of, which handing out a
    /// frame leaves as they are.
    spec fn bounds(&self) -> (int, int);

    /// Allocates a new page table, returning its frame number.
    fn allocate(&mut self) -> (r: Result<PhysFrameNum>)
        requires
            old(self).ready(),
        ensures
            final(self).ready(),
            final(self).bounds() == old(self).bounds(),
            old(self).available() > 0 ==> r is Ok,
            final(self).available() + 1 >= old(self).available(),
            old(self).hands_out_fresh() ==> {
                &&& final(self).hands_out_fresh()
                &&& forall|g: usize| #[trigger] final(self).may_hand_out(g) ==> old(self).may_hand_out(g)
                &&& r matches Ok(f) ==> old(self).may_hand_out(f@) && !final(self).may_hand_out(f@)
            },
    ;
}

/// Receives notifications of pages whose mappings changed and must be flushed from the TLB.
pub trait GatherInvalidations {
    /// Notes that the mapping for `vpn` has been modified.
    fn add_tlb_flush(&mut self, vpn: VirtPageNum);
}

/// A [`GatherInvalidations`] implementation that ignores every notification, for callers that
/// flush the whole TLB anyway.
pub struct NoopGather;

impl GatherInvalidations for NoopGather {
    fn add_tlb_flush(&mut self, _vpn: VirtPageNum) {
    }
}

/// A virtual page range along with a progress pointer within it.
///
/// Map and unmap operations advance the pointer as they go, so that partial progress can be
/// reported to the caller even when an operation fails midway.
pub struct MappingPointer {
    base: VirtPageNum,
    size: usize,
    offset: usize,
}

impl MappingPointer {
    /// The first page of the range.
    pub closed spec fn spec_base(&self) -> usize {
        self.base@
    }

    /// The number of pages in the range.
    pub closed spec fn spec_size(&self) -> usize {
        self.size
    }

    /// The number of pages already processed.
    pub closed spec fn spec_offset(&self) -> usize {
        self.offset
    }

    /// The current page.
    pub open spec fn spec_virt(&self) -> int {
        self.spec_base() + self.spec_offset()
    }

    /// The offset never passes the end of the range, and the current page exists.
    #[verifier::type_invariant]
    closed spec fn wf(&self) -> bool {
        &&& self.offset <= self.size
        &&& self.base@ + self.offset <= usize::MAX
    }

    /// Creates a pointer spanning `base..base + size`, positioned at its start.
    pub fn new(base: VirtPageNum, size: usize) -> (r: Self)
        ensures
            r.spec_base() == base@,
            r.spec_size() == size,
            r.spec_offset() == 0,
    {
        Self { base, size, offset: 0 }
    }

    /// The current offset, in pages from the base.
    pub fn offset(&self) -> (r: usize)
        ensures
            r == self.spec_offset(),
    {
        self.offset
    }

    /// The current virtual page.
    pub fn virt(&self) -> (r: VirtPageNum)
        ensures
            r@ == self.spec_virt(),
    {
        proof {
            use_type_invariant(self);
        }
        self.base.plus(self.offset)
    }

    /// The number of pages past the current offset.
    pub fn remaining_pages(&self) -> (r: usize)
        ensures
            r == self.spec_size() - self.spec_offset(),
    {
        proof {
            use_type_invariant(self);
        }
        self.size - self.offset
    }

    /// Advances the pointer by `pages`, which must not pass the end of the range.
    pub fn advance(&mut self, pages: usize)
        requires
            old(self).spec_offset() + pages <= old(self).spec_size(),
            old(self).spec_base() + old(self).spec_offset() + pages <= usize::MAX,
        ensures
            final(self).spec_base() == old(self).spec_base(),
            final(self).spec_size() == old(self).spec_size(),
            final(self).spec_offset() == old(self).spec_offset() + pages,
    {
        proof {
            use_type_invariant(&*self);
        }
        self.offset = self.offset + pages;
    }

    /// Advances the pointer by `pages`, stopping at the end of the range.
    pub fn advance_clamped(&mut self, pages: usize)
        requires
            old(self).spec_offset() + pages <= usize::MAX,
            old(self).spec_base() + old(self).spec_size() <= usize::MAX,
        ensures
            final(self).spec_base() == old(self).spec_base(),
            final(self).spec_size() == old(self).spec_size(),
            final(self).spec_offset() == if old(self).spec_offset() + pages
                <= old(self).spec_size() {
                old(self).spec_offset() + pages
            } else {
                old(self).spec_size() as int
            },
    {
        proof {
            use_type_invariant(&*self);
        }
        let next = self.offset + pages;
        self.offset = if next < self.size {
            next
        } else {
            self.size
        };
    }
}

/// The number of pages mapped by one entry of a page table at `level`.
pub open spec fn spec_level_page_count(level: nat) -> nat {
    pow2(9 * level)
}

/// The number of pages covered by a whole page table at `level`.
pub open spec fn spec_level_span(level: nat) -> nat {
    pow2(9 * level + 9)
}

/// The first page of the next page table at `level` after the one containing `virt`.
pub open spec fn spec_table_boundary(virt: int, level: nat) -> int {
    (virt / spec_level_span(level) as int + 1) * spec_level_span(level)
}

/// The page at which a walk of the table at `level` containing the pointer's current page stops:
/// the end of that table or the end of the pointer's range, whichever comes first.
pub open spec fn spec_walk_limit(pointer: MappingPointer, level: nat) -> int {
    let end = pointer.spec_base() + pointer.spec_size();
    let boundary = spec_table_boundary(pointer.spec_virt(), level);
    if end <= boundary {
        end
    } else {
        boundary
    }
}

proof fn lemma_level_sizes(level: nat)
    requires
        level < 4,
    ensures
        spec_level_page_count(level) >= 1,
        spec_level_page_count(level) <= 0x800_0000,
        level == 0 ==> spec_level_page_count(level) == 1,
        level > 0 ==> spec_level_page_count(level) % 512 == 0,
        spec_level_span(level) == 512 * spec_level_page_count(level),
        level > 0 ==> spec_level_span((level - 1) as nat) == spec_level_page_count(level),
{
    vstd::arithmetic::power2::lemma2_to64();
    vstd::arithmetic::power2::lemma_pow2_adds(9 * level, 9);
    vstd::arithmetic::power2::lemma_pow2_pos(9 * level);
    if level > 0 {
        assert(9 * ((level - 1) as nat) + 9 == 9 * level);
        vstd::arithmetic::power2::lemma_pow2_adds(9 * ((level - 1) as nat), 9);
        vstd::arithmetic::div_mod::lemma_mod_multiples_basic(pow2(9 * ((level - 1) as nat)) as int, 512);
    }
    if level == 3 {
        assert(9 * level == 27);
    } else if level == 2 {
        assert(9 * level == 18);
        vstd::arithmetic::power2::lemma_pow2_strictly_increases(18, 27);
    } else if level == 1 {
        assert(9 * level == 9);
        vstd::arithmetic::power2::lemma_pow2_strictly_increases(9, 27);
    } else {
        assert(9 * level == 0);
    }
}

/// A page lies below the end of the table at `level` containing it, which lies at most a table's
/// span above it.
pub proof fn lemma_boundary_above(v: int, level: nat)
    requires
        level < 4,
        0 <= v,
    ensures
        v < spec_table_boundary(v, level),
        spec_table_boundary(v, level) <= v + spec_level_span(level),
{
    lemma_level_sizes(level);
    let s = spec_level_span(level) as int;
    vstd::arithmetic::div_mod::lemma_fundamental_div_mod(v, s);
    vstd::arithmetic::div_mod::lemma_mod_bound(v, s);
    assert((v / s + 1) * s == s * (v / s) + s) by (nonlinear_arith);
}

proof fn lemma_boundary(v: int, w: int, level: nat)
    requires
        level < 4,
        0 <= v <= w < spec_table_boundary(v, level),
    ensures
        spec_table_boundary(v, level) % spec_level_page_count(level) as int == 0,
        w % spec_level_page_count(level) as int == 0 ==> w + spec_level_page_count(level)
            <= spec_table_boundary(v, level),
        level > 0 ==> w < spec_table_boundary(w, (level - 1) as nat) <= spec_table_boundary(
            v,
            level,
        ),
        v < spec_table_boundary(v, level),
{
    lemma_level_sizes(level);
    let c = spec_level_page_count(level) as int;
    let s = spec_level_span(level) as int;
    let q = v / s;
    vstd::arithmetic::div_mod::lemma_fundamental_div_mod(v, s);
    vstd::arithmetic::div_mod::lemma_mod_bound(v, s);
    assert((q + 1) * s == (q + 1) * 512 * c) by (nonlinear_arith)
        requires s == 512 * c;
    vstd::arithmetic::div_mod::lemma_mod_multiples_basic((q + 1) * 512, c);
    assert((q + 1) * s > v) by (nonlinear_arith)
        requires v == s * q + v % s, v % s < s;
    if w % c == 0 {
        let k = w / c;
        vstd::arithmetic::div_mod::lemma_fundamental_div_mod(w, c);
        assert(w == c * k);
        assert(c * k < c * ((q + 1) * 512)) by (nonlinear_arith)
            requires w == c * k, w < (q + 1) * 512 * c;
        assert(k < (q + 1) * 512) by (nonlinear_arith)
            requires c * k < c * ((q + 1) * 512), c > 0;
        assert(w + c <= (q + 1) * 512 * c) by (nonlinear_arith)
            requires w == c * k, k + 1 <= (q + 1) * 512, c > 0;
    }
    if level > 0 {
        let k = w / c;
        vstd::arithmetic::div_mod::lemma_fundamental_div_mod(w, c);
        vstd::arithmetic::div_mod::lemma_mod_bound(w, c);
        assert(spec_table_boundary(w, (level - 1) as nat) == (k + 1) * c);
        assert(c * k <= w);
        assert((k + 1) * c > w) by (nonlinear_arith)
            requires w == c * k + w % c, w % c < c;
        assert(c * k < c * ((q + 1) * 512)) by (nonlinear_arith)
            requires c * k <= w, w < (q + 1) * 512 * c;
        assert(k < (q + 1) * 512) by (nonlinear_arith)
            requires c * k < c * ((q + 1) * 512), c > 0;
        assert((k + 1) * c <= (q + 1) * 512 * c) by (nonlinear_arith)
            requires k + 1 <= (q + 1) * 512, c > 0;
    }
}

/// The number of pages mapped by one entry of a page table at `level`.
fn level_page_count(level: usize) -> (r: usize)
    requires
        level < 4,
    ensures
        r == spec_level_page_count(level as nat),
        1 <= r <= 0x800_0000,
{
    proof {
        lemma_level_sizes(level as nat);
        vstd::arithmetic::power2::lemma2_to64();
        vstd::arithmetic::power2::lemma_pow2_strictly_increases(9 * level as nat, 32);
        vstd::bits::lemma_usize_shl_is_mul(1, (level * 9) as usize);
    }
    1usize << (level * PT_LEVEL_SHIFT)
}

/// The mask selecting the page number bits below one entry of a page table at `level`.
fn level_page_mask(level: usize) -> (r: usize)
    requires
        level < 4,
    ensures
        r == spec_level_page_count(level as nat) - 1,
{
    level_page_count(level) - 1
}

/// Whether `page_num` is aligned to the pages covered by one entry at `level`.
fn aligned_for_level(page_num: usize, level: usize) -> (r: bool)
    requires
        level < 4,
    ensures
        r == (page_num as int % spec_level_page_count(level as nat) as int == 0),
{
    let mask = level_page_mask(level);
    proof {
        lemma_level_sizes(level as nat);
        vstd::bits::lemma_usize_low_bits_mask_is_mod(page_num, 9 * level as nat);
    }
    page_num & mask == 0
}

/// Whether the pointer's current page starts an entry at `level` and the rest of the range
/// covers that entry entirely.
fn covers_level_entry(pointer: &MappingPointer, level: usize) -> (r: bool)
    requires
        level < 4,
    ensures
        r == (pointer.spec_virt() % spec_level_page_count(level as nat) as int == 0
            && pointer.spec_size() - pointer.spec_offset() >= spec_level_page_count(level as nat)),
{
    aligned_for_level(pointer.virt().as_usize(), level) && pointer.remaining_pages()
        >= level_page_count(level)
}

/// Whether a single large page at `level` can map the pointer's current page to the matching
/// frame.
fn can_use_level_page(level: usize, pointer: &MappingPointer, phys_base: PhysFrameNum) -> (r:
    bool)
    requires
        level < 4,
        phys_base@ + pointer.spec_size() <= usize::MAX,
    ensures
        r == (pointer.spec_virt() % spec_level_page_count(level as nat) as int == 0
            && pointer.spec_size() - pointer.spec_offset() >= spec_level_page_count(level as nat)
            && (phys_base@ + pointer.spec_offset()) % spec_level_page_count(level as nat) as int
            == 0),
{
    proof {
        use_type_invariant(pointer);
    }
    covers_level_entry(pointer, level) && aligned_for_level(
        phys_base.as_usize() + pointer.offset(),
        level,
    )
}

/// Computes where a walk over the page table at `level` containing the pointer's current page
/// must stop.
fn walk_level(level: usize, pointer: &MappingPointer) -> (r: usize)
    requires
        level < 4,
        pointer.spec_base() + pointer.spec_size() <= usize::MAX,
    ensures
        r == spec_walk_limit(*pointer, level as nat),
        pointer.spec_virt() <= r <= pointer.spec_base() + pointer.spec_size(),
{
    proof {
        use_type_invariant(pointer);
        lemma_level_sizes(level as nat);
        lemma_boundary_above(pointer.spec_virt(), level as nat);
    }
    let virt = pointer.virt().as_usize();
    let range_end = virt + pointer.remaining_pages();
    let span = (level_page_count(level) as u128) * 512;
    let q = (virt as u128) / span;
    proof {
        assert(q * span <= virt as u128) by {
            vstd::arithmetic::div_mod::lemma_fundamental_div_mod(virt as int, span as int);
            vstd::arithmetic::div_mod::lemma_mod_bound(virt as int, span as int);
            vstd::arithmetic::mul::lemma_mul_is_commutative(q as int, span as int);
        }
        assert((q + 1) * span == q * span + span) by (nonlinear_arith);
        assert(span == spec_level_span(level as nat));
    }
    let boundary = (q + 1) * span;
    if (range_end as u128) <= boundary {
        range_end
    } else {
        boundary as usize
    }
}

/// Physical memory holding page tables: each table is a frame of `PT_ENTRY_COUNT` entries.
/// Memory that has never been written reads as zero.
pub struct PageTableMemory {
    tables: HashMap<usize, Vec<PageTableEntry>>,
}

impl PageTableMemory {
    /// Every stored frame holds exactly one table's worth of entries.
    #[verifier::type_invariant]
    closed spec fn wf(&self) -> bool {
        forall|t: usize| #[trigger] self.tables@.contains_key(t) ==> self.tables@[t]@.len() == 512
    }

    /// The entry at `index` of the table in frame `table`.
    pub closed spec fn spec_entry(&self, table: usize, index: int) -> PageTableEntry {
        if self.tables@.contains_key(table) && 0 <= index < 512 {
            self.tables@[table]@[index]
        } else {
            0
        }
    }

    /// Whether some present entry of some table points to `frame`.
    pub open spec fn links_to(&self, frame: usize) -> bool {
        exists|t: usize, i: int|
            0 <= i < 512 && spec_pte_is_present(#[trigger] self.spec_entry(t, i))
                && spec_pte_frame(self.spec_entry(t, i)) == frame
    }

    /// Creates a memory in which every entry is zero.
    pub fn new() -> (r: Self)
        ensures
            forall|t: usize, i: int| r.spec_entry(t, i) == 0,
    {
        Self { tables: HashMap::new() }
    }

    /// Reads the entry at `index` of the table in frame `table`.
    pub fn read(&self, table: PhysFrameNum, index: usize) -> (r: PageTableEntry)
        requires
            index < 512,
        ensures
            r == self.spec_entry(table@, index as int),
    {
        proof {
            use_type_invariant(self);
        }
        match self.tables.get(&table.as_usize()) {
            Some(entries) => entries[index],
            None => 0,
        }
    }

    /// Writes `entry` at `index` of the table in frame `table`.
    pub fn write(&mut self, table: PhysFrameNum, index: usize, entry: PageTableEntry)
        requires
            index < 512,
        ensures
            forall|t: usize, i: int|
                #![trigger final(self).spec_entry(t, i)]
                final(self).spec_entry(t, i) == if t == table@ && i == index {
                    entry
                } else {
                    old(self).spec_entry(t, i)
                },
    {
        proof {
            use_type_invariant(&*self);
        }
        let key = table.as_usize();
        let mut entries = match self.tables.get(&key) {
            Some(existing) => existing.clone(),
            None => zeroed_table(),
        };
        proof {
            if old(self).tables@.contains_key(key) {
                assert(entries@ =~= old(self).tables@[key]@);
            }
        }
        entries.set(index, entry);
        let mut tables = HashMap::new();
        core::mem::swap(&mut tables, &mut self.tables);
        tables.insert(key, entries);
        self.tables = tables;
    }

    /// Fills the table in frame `table` with empty entries.
    pub fn clear_table(&mut self, table: PhysFrameNum)
        ensures
            forall|t: usize, i: int|
                #![trigger final(self).spec_entry(t, i)]
                final(self).spec_entry(t, i) == if t == table@ {
                    0
                } else {
                    old(self).spec_entry(t, i)
                },
    {
        proof {
            use_type_invariant(&*self);
        }
        let entries = zeroed_table();
        let mut tables = HashMap::new();
        core::mem::swap(&mut tables, &mut self.tables);
        tables.insert(table.as_usize(), entries);
        self.tables = tables;
    }
}

/// A memory obtained from `m0` by clearing entries links only to frames that `m0` links to.
proof fn lemma_links_monotone(m0: PageTableMemory, m1: PageTableMemory, frame: usize)
    requires
        forall|t: usize, i: int|
            #![trigger m1.spec_entry(t, i)]
            m1.spec_entry(t, i) == m0.spec_entry(t, i) || m1.spec_entry(t, i) == 0,
        m1.links_to(frame),
    ensures
        m0.links_to(frame),
{
    let (t, i) = choose|t: usize, i: int|
        0 <= i < 512 && spec_pte_is_present(#[trigger] m1.spec_entry(t, i)) && spec_pte_frame(
            m1.spec_entry(t, i),
        ) == frame;
    assert(0u64 & 1u64 == 0) by (bit_vector);
    assert(m1.spec_entry(t, i) == m0.spec_entry(t, i));
}

/// A table's worth of empty entries.
fn zeroed_table() -> (r: Vec<PageTableEntry>)
    ensures
        r@.len() == 512,
        forall|i: int| 0 <= i < 512 ==> r@[i] == 0,
{
    let mut v: Vec<PageTableEntry> = Vec::new();
    let mut i: usize = 0;
    while i < PT_ENTRY_COUNT
        invariant
            i <= 512,
            v@.len() == i,
            forall|k: int| 0 <= k < i ==> v@[k] == 0,
        decreases 512 - i,
    {
        v.push(make_empty_pte());
        i = i + 1;
    }
    v
}

/// How a walk rewrites each entry that it visits.
#[derive(Clone, Copy, Debug, PartialEq, Eq, Structural)]
pub enum PteUpdate {
    /// Replace the entry with an empty one.
    Clear,
    /// Replace the entry's permissions with the given ones.
    Protect(PageTablePerms),
}

/// Why a table entry could not be followed to a lower-level table.
enum NextTableError {
    NotPresent,
    TerminalEntry(PageTableEntry),
}

/// A page table rooted at a physical frame, manipulated through a [`PageTableMemory`].
pub struct PageTable {
    root: PhysFrameNum,
}

impl PageTable {
    /// The frame holding the top-level table.
    pub closed spec fn spec_root(&self) -> usize {
        self.root@
    }

    /// Creates an accessor for the page table rooted at `root_pt`.
    pub fn new(root_pt: PhysFrameNum) -> (r: Self)
        ensures
            r.spec_root() == root_pt@,
    {
        Self { root: root_pt }
    }

    /// The frame holding the top-level table.
    pub fn root(&self) -> (r: PhysFrameNum)
        ensures
            r@ == self.spec_root(),
    {
        self.root
    }

    /// Maps the pages spanned by `pointer` to consecutive frames starting at `phys_base`, using
    /// large pages where alignment allows. Existing mappings are never overwritten.
    ///
    /// On return `pointer` points past the last page mapped; on success this is the end of the
    /// range, or the end of the top-level table's coverage if the range extends past it.
    ///
    /// Where the page table and allocator are ready for mapping ([`mapping_ready`]), they stay
    /// so, every page mapped before is still mapped as it was, and each page passed is found
    /// mapped to its frame (where the frames fit in an entry), with `perms` and `cache_mode`
    /// ([`mapped_as`]), whether the call succeeds or not.
    ///
    /// Errors: `OutOfMemory` when a table allocation fails (the allocator's error is passed on),
    /// `ResourceOverlap` when a page in the range is already mapped. For a single page on a ready
    /// table this is exact: the call fails with `ResourceOverlap` when the page is mapped, and
    /// succeeds when it is not and the allocator can still hand out a table for each level below
    /// the root.
    pub fn map<A: PageTableAlloc>(
        &mut self,
        mem: &mut PageTableMemory,
        alloc: &mut A,
        pointer: &mut MappingPointer,
        phys_base: PhysFrameNum,
        perms: PageTablePerms,
        cache_mode: CacheMode,
    ) -> (r: Result<()>)
        requires
            phys_base@ + old(pointer).spec_size() <= usize::MAX,
            old(pointer).spec_base() + old(pointer).spec_size() <= usize::MAX,
            old(alloc).ready(),
        ensures
            *final(self) == *old(self),
            final(alloc).ready(),
            final(alloc).bounds() == old(alloc).bounds(),
            final(pointer).spec_base() == old(pointer).spec_base(),
            final(pointer).spec_size() == old(pointer).spec_size(),
            old(pointer).spec_offset() <= final(pointer).spec_offset(),
            final(pointer).spec_virt() <= spec_walk_limit(*old(pointer), 3),
            r is Ok ==> final(pointer).spec_virt() == spec_walk_limit(*old(pointer), 3),
            mapping_ready(*old(mem), old(self).spec_root(), *old(alloc)) ==> {
                &&& phys_base@ + old(pointer).spec_size() <= max_pte_frame() ==> forall|vpn: usize|
                    old(pointer).spec_virt() <= vpn < final(pointer).spec_virt() ==> #[trigger] spec_lookup(
                        *final(mem),
                        old(self).spec_root(),
                        3,
                        vpn,
                    ) == Some(phys_base@ + vpn - old(pointer).spec_base())
                &&& forall|vpn: usize|
                    old(pointer).spec_virt() <= vpn < final(pointer).spec_virt() ==> #[trigger] mapped_as(
                        *final(mem),
                        old(self).spec_root(),
                        3,
                        vpn,
                        perms,
                        cache_mode,
                    )
                &&& forall|vpn: usize|
                    #![trigger spec_lookup(*final(mem), old(self).spec_root(), 3, vpn)]
                    spec_lookup(*old(mem), old(self).spec_root(), 3, vpn) is Some ==> spec_lookup(
                        *final(mem),
                        old(self).spec_root(),
                        3,
                        vpn,
                    ) == spec_lookup(*old(mem), old(self).spec_root(), 3, vpn)
                &&& forall|vpn: usize|
                    #![trigger spec_lookup_entry(*final(mem), old(self).spec_root(), 3, vpn)]
                    spec_lookup_entry(*old(mem), old(self).spec_root(), 3, vpn) is Some ==> spec_lookup_entry(
                        *final(mem),
                        old(self).spec_root(),
                        3,
                        vpn,
                    ) == spec_lookup_entry(*old(mem), old(self).spec_root(), 3, vpn)
                &&& mapping_ready(*final(mem), old(self).spec_root(), *final(alloc))
            },
            mapping_ready(*old(mem), old(self).spec_root(), *old(alloc)) && old(pointer).spec_offset() + 1
                == old(pointer).spec_size() ==> {
                let found = spec_lookup(*old(mem), old(self).spec_root(), 3, old(pointer).spec_virt() as usize);
                &&& found is Some ==> r == Err::<(), Error>(Error::ResourceOverlap)
                &&& found is None && old(alloc).available() >= 3 ==> r is Ok
            },
    {
        let ghost lv = if mapping_ready(*mem, self.spec_root(), *alloc) {
            choose|lv: Map<usize, nat>| #[trigger] mapping_state(*mem, lv, *alloc) && lv.contains_key(self.spec_root())
                && lv[self.spec_root()] == 3
        } else {
            Map::empty()
        };
        let ghost m0 = *mem;
        let r = Self::map_inner(
            mem,
            alloc,
            pointer,
            self.root,
            PT_LEVEL_COUNT - 1,
            phys_base,
            perms,
            cache_mode,
            Ghost(lv),
        );
        proof {
            if mapping_ready(m0, self.spec_root(), *old(alloc)) {
                assert forall|vpn: usize|
                    #![trigger spec_lookup(*mem, self.spec_root(), 3, vpn)]
                    spec_lookup(m0, self.spec_root(), 3, vpn) is Some implies spec_lookup(
                        *mem,
                        self.spec_root(),
                        3,
                        vpn,
                    ) == spec_lookup(m0, self.spec_root(), 3, vpn) by {
                    lemma_lookup_kept(m0, *mem, lv, self.spec_root(), 3, vpn);
                }
                assert forall|vpn: usize|
                    #![trigger spec_lookup_entry(*mem, self.spec_root(), 3, vpn)]
                    spec_lookup_entry(m0, self.spec_root(), 3, vpn) is Some implies spec_lookup_entry(
                        *mem,
                        self.spec_root(),
                        3,
                        vpn,
                    ) == spec_lookup_entry(m0, self.spec_root(), 3, vpn) by {
                    lemma_mapped_as_kept(m0, *mem, lv, self.spec_root(), 3, vpn);
                }
                let lv2 = choose|lv2: Map<usize, nat>|
                    #[trigger] levels_extend(lv, lv2) && mapping_state(*mem, lv2, *alloc);
                assert(mapping_state(*mem, lv2, *alloc) && lv2.contains_key(self.spec_root())
                    && lv2[self.spec_root()] == 3);
            }
        }
        r
    }

    /// Unmaps every page in the range of `pointer`, skipping holes, and reports each entry
    /// changed to `gather`. Large pages only partially covered by the range cannot be split.
    ///
    /// A hole is skipped a whole entry's span at a time, counted from the page where the walk
    /// meets it; so every page of the range is unmapped where the walk for the range's first page
    /// meets an empty entry only at the first page of that entry's span
    /// ([`first_walk_aligned`]), as it does when that page is mapped.
    ///
    /// Errors: `ResourceOverlap` when the range partially covers a large page.
    pub fn unmap<G: GatherInvalidations>(
        &mut self,
        mem: &mut PageTableMemory,
        gather: &mut G,
        pointer: &mut MappingPointer,
    ) -> (r: Result<()>)
        requires
            old(pointer).spec_base() + old(pointer).spec_size() + 0x800_0000 <= usize::MAX,
        ensures
            *final(self) == *old(self),
            final(pointer).spec_base() == old(pointer).spec_base(),
            final(pointer).spec_size() == old(pointer).spec_size(),
            old(pointer).spec_offset() <= final(pointer).spec_offset(),
            r is Ok ==> final(pointer).spec_virt() >= spec_walk_limit(*old(pointer), 3),
            forall|vpn: usize|
                #[trigger] spec_lookup(*final(mem), old(self).spec_root(), 3, vpn) is None || spec_lookup(
                    *final(mem),
                    old(self).spec_root(),
                    3,
                    vpn,
                ) == spec_lookup(*old(mem), old(self).spec_root(), 3, vpn),
            first_walk_aligned(*old(mem), old(self).spec_root(), 3, old(pointer).spec_virt() as usize) ==> {
                &&& final(pointer).spec_virt() <= spec_walk_limit(*old(pointer), 3)
                &&& r is Ok ==> forall|vpn: usize|
                    old(pointer).spec_virt() <= vpn < final(pointer).spec_virt() ==> #[trigger] spec_lookup(
                        *final(mem),
                        old(self).spec_root(),
                        3,
                        vpn,
                    ) is None
            },
    {
        let r = Self::walk_update(mem, gather, pointer, PteUpdate::Clear, self.root, PT_LEVEL_COUNT - 1);
        proof {
            assert forall|vpn: usize|
                #[trigger] spec_lookup(*mem, self.spec_root(), 3, vpn) is None || spec_lookup(
                    *mem,
                    self.spec_root(),
                    3,
                    vpn,
                ) == spec_lookup(*old(mem), self.spec_root(), 3, vpn) by {
                lemma_lookup_after_clear(*old(mem), *mem, self.spec_root(), 3, vpn);
            }
        }
        r
    }

    /// Replaces the permissions of every page in the range of `pointer` with `perms`, skipping
    /// holes, and reports each entry changed to `gather`. Every page of the range then has
    /// `perms`, where the walk for its first page meets an empty entry only at the first page of
    /// that entry's span (as for [`unmap`](PageTable::unmap)).
    ///
    /// Errors: `ResourceOverlap` when the range partially covers a large page.
    pub fn protect<G: GatherInvalidations>(
        &mut self,
        mem: &mut PageTableMemory,
        gather: &mut G,
        pointer: &mut MappingPointer,
        perms: PageTablePerms,
    ) -> (r: Result<()>)
        requires
            old(pointer).spec_base() + old(pointer).spec_size() + 0x800_0000 <= usize::MAX,
        ensures
            *final(self) == *old(self),
            final(pointer).spec_base() == old(pointer).spec_base(),
            final(pointer).spec_size() == old(pointer).spec_size(),
            old(pointer).spec_offset() <= final(pointer).spec_offset(),
            r is Ok ==> final(pointer).spec_virt() >= spec_walk_limit(*old(pointer), 3),
            forall|vpn: usize|
                #[trigger] spec_lookup(*final(mem), old(self).spec_root(), 3, vpn) == spec_lookup(
                    *old(mem),
                    old(self).spec_root(),
                    3,
                    vpn,
                ),
            mem_updated(PteUpdate::Protect(perms), *old(mem), *final(mem)),
            first_walk_aligned(*old(mem), old(self).spec_root(), 3, old(pointer).spec_virt() as usize) ==> {
                &&& final(pointer).spec_virt() <= spec_walk_limit(*old(pointer), 3)
                &&& r is Ok ==> forall|vpn: usize|
                    old(pointer).spec_virt() <= vpn < final(pointer).spec_virt() ==> #[trigger] perms_ok(
                        *final(mem),
                        old(self).spec_root(),
                        3,
                        vpn,
                        perms,
                    )
            },
    {
        let r = Self::walk_update(
            mem,
            gather,
            pointer,
            PteUpdate::Protect(perms),
            self.root,
            PT_LEVEL_COUNT - 1,
        );
        proof {
            assert forall|vpn: usize|
                #[trigger] spec_lookup(*mem, self.spec_root(), 3, vpn) == spec_lookup(
                    *old(mem),
                    self.spec_root(),
                    3,
                    vpn,
                ) by {
                lemma_lookup_after_protect(perms, *old(mem), *mem, self.spec_root(), 3, vpn);
            }
            let u = PteUpdate::Protect(perms);
            assert(u is Protect && u->Protect_0 == perms);
            if first_walk_aligned(*old(mem), self.spec_root(), 3, old(pointer).spec_virt() as usize) && r is Ok {
                assert forall|vpn: usize|
                    old(pointer).spec_virt() <= vpn < pointer.spec_virt() implies #[trigger] perms_ok(
                        *mem,
                        self.spec_root(),
                        3,
                        vpn,
                        perms,
                    ) by {
                    assert(perms_ok(*mem, self.spec_root(), 3, vpn, u->Protect_0));
                }
            }
        }
        r
    }

    fn map_inner<A: PageTableAlloc>(
        mem: &mut PageTableMemory,
        alloc: &mut A,
        pointer: &mut MappingPointer,
        table: PhysFrameNum,
        level: usize,
        phys_base: PhysFrameNum,
        perms: PageTablePerms,
        cache_mode: CacheMode,
        Ghost(lv): Ghost<Map<usize, nat>>,
    ) -> (r: Result<()>)
        requires
            level < 4,
            phys_base@ + old(pointer).spec_size() <= usize::MAX,
            old(pointer).spec_base() + old(pointer).spec_size() <= usize::MAX,
            old(alloc).ready(),
        ensures
            final(alloc).ready(),
            final(alloc).bounds() == old(alloc).bounds(),
            final(pointer).spec_base() == old(pointer).spec_base(),
            final(pointer).spec_size() == old(pointer).spec_size(),
            old(pointer).spec_offset() <= final(pointer).spec_offset(),
            final(pointer).spec_virt() <= spec_walk_limit(*old(pointer), level as nat),
            r is Ok ==> final(pointer).spec_virt() == spec_walk_limit(*old(pointer), level as nat),
            lv.contains_key(table@) && lv[table@] == level && mapping_state(*old(mem), lv, *old(alloc))
                && old(pointer).spec_offset() + 1 == old(pointer).spec_size() ==> {
                let found = spec_lookup(*old(mem), table@, level as nat, old(pointer).spec_virt() as usize);
                &&& found is Some ==> r == Err::<(), Error>(Error::ResourceOverlap)
                &&& found is None && old(alloc).available() >= level ==> r is Ok
            },
            lv.contains_key(table@) && lv[table@] == level && mapping_state(*old(mem), lv, *old(alloc)) ==> {
                &&& present_entries_kept(*old(mem), *final(mem), lv)
                &&& exists|lv2: Map<usize, nat>|
                    #[trigger] levels_extend(lv, lv2) && mapping_state(*final(mem), lv2, *final(alloc))
                &&& phys_base@ + old(pointer).spec_size() <= max_pte_frame() ==> forall|vpn: usize|
                    old(pointer).spec_virt() <= vpn < final(pointer).spec_virt() ==> #[trigger] spec_lookup(
                        *final(mem),
                        table@,
                        level as nat,
                        vpn,
                    ) == Some(phys_base@ + vpn - old(pointer).spec_base())
                &&& forall|vpn: usize|
                    old(pointer).spec_virt() <= vpn < final(pointer).spec_virt() ==> #[trigger] mapped_as(
                        *final(mem),
                        table@,
                        level as nat,
                        vpn,
                        perms,
                        cache_mode,
                    )
            },
        decreases level,
    {
        proof {
            use_type_invariant(&*pointer);
        }
        let max_virt = walk_level(level, pointer);
        let ghost start = *pointer;
        let ghost m_start = *mem;
        let ghost pre = lv.contains_key(table@) && lv[table@] == level && mapping_state(*mem, lv, *alloc);
        let ghost phys_fits = phys_base@ + pointer.spec_size() <= max_pte_frame();
        let ghost mut lv_cur = lv;
        let ghost a_start = *alloc;
        let ghost single = start.spec_offset() + 1 == start.spec_size();
        while pointer.virt().as_usize() < max_virt
            invariant
                level < 4,
                start == *old(pointer),
                a_start == *old(alloc),
                alloc.bounds() == a_start.bounds(),
                single == (start.spec_offset() + 1 == start.spec_size()),
                single ==> pointer.spec_virt() >= max_virt || (pointer.spec_offset() == start.spec_offset()
                    && *mem == m_start && *alloc == a_start),
                single && pre && pointer.spec_offset() != start.spec_offset() ==> spec_lookup(
                    m_start,
                    table@,
                    level as nat,
                    start.spec_virt() as usize,
                ) is None,
                pointer.spec_base() == start.spec_base(),
                pointer.spec_size() == start.spec_size(),
                start.spec_offset() <= pointer.spec_offset(),
                pointer.spec_virt() <= max_virt,
                max_virt == spec_walk_limit(start, level as nat),
                start.spec_virt() <= max_virt <= start.spec_base() + start.spec_size(),
                phys_base@ + start.spec_size() <= usize::MAX,
                start.spec_base() + start.spec_size() <= usize::MAX,
                alloc.ready(),
                pre == (lv.contains_key(table@) && lv[table@] == level && mapping_state(m_start, lv, *old(alloc))),
                phys_fits == (phys_base@ + start.spec_size() <= max_pte_frame()),
                m_start == *old(mem),
                pre ==> {
                    &&& levels_extend(lv, lv_cur)
                    &&& mapping_state(*mem, lv_cur, *alloc)
                    &&& present_entries_kept(m_start, *mem, lv)
                    &&& phys_fits ==> forall|vpn: usize|
                        start.spec_virt() <= vpn < pointer.spec_virt() ==> #[trigger] spec_lookup(
                            *mem,
                            table@,
                            level as nat,
                            vpn,
                        ) == Some(phys_base@ + vpn - start.spec_base())
                    &&& forall|vpn: usize|
                        start.spec_virt() <= vpn < pointer.spec_virt() ==> #[trigger] mapped_as(
                            *mem,
                            table@,
                            level as nat,
                            vpn,
                            perms,
                            cache_mode,
                        )
                },
            decreases max_virt - pointer.spec_virt(),
        {
            proof {
                use_type_invariant(&*pointer);
                lemma_level_sizes(level as nat);
                lemma_boundary(start.spec_virt(), pointer.spec_virt(), level as nat);
            }
            let ghost m0 = *mem;
            let ghost p0 = *pointer;
            if supports_page_size(level) && can_use_level_page(level, pointer, phys_base) {
                let res = Self::map_terminal(mem, pointer, table, level, phys_base, perms, cache_mode);
                proof {
                    if pre {
                        let index = spec_pt_index(p0.spec_virt() as usize, level);
                        lemma_index_bound(p0.spec_virt() as usize, level);
                        if res is Ok {
                            lemma_fill_terminal(m0, *mem, lv_cur, table@, index as int);
                            lemma_present_kept_trans(m_start, m0, *mem, lv, lv_cur);
                            if phys_fits {
                                lemma_mapped_range_kept(m0, *mem, lv_cur, table@, level, start, p0, phys_base@);
                                lemma_terminal_range(*mem, table@, level, p0, *pointer, phys_base@);
                            }
                            lemma_mapped_as_range_kept(m0, *mem, lv_cur, table@, level as nat, start.spec_virt(), p0.spec_virt(), perms, cache_mode);
                            lemma_block_mapped_as(*mem, table@, level, p0.spec_virt(), pointer.spec_virt(), perms, cache_mode);
                        }
                    }
                }
                match res {
                    Err(e) => {
                        proof {
                            if pre {
                                assert(levels_extend(lv, lv_cur));
                            }
                        }
                        return Err(e);
                    },
                    Ok(()) => {},
                }
            } else {
                proof {
                    if level == 0 {
                        assert(pointer.spec_virt() % 1 == 0);
                        assert((phys_base@ + pointer.spec_offset()) % 1 == 0);
                    }
                }
                let ghost a0 = *alloc;
                let index = pointer.virt().pt_index(level);
                let created = Self::next_table_or_create(mem, alloc, table, index, level);
                let next = match created {
                    Ok(next) => next,
                    Err(e) => {
                        proof {
                            if pre {
                                assert(levels_extend(lv, lv_cur));
                            }
                        }
                        return Err(e);
                    },
                };
                let ghost was_present = spec_pte_is_present(m0.spec_entry(table@, index as int));
                let ghost lv_next = if was_present {
                    lv_cur
                } else {
                    lv_cur.insert(next@, (level - 1) as nat)
                };
                proof {
                    if pre {
                        if was_present {
                            assert(present_entries_kept(m0, *mem, lv_cur));
                        } else {
                            assert(!lv_cur.contains_key(next@));
                            lemma_link_new_table(m0, *mem, lv_cur, table@, index as int, next@);
                        }
                    }
                }
                let ghost m1 = *mem;
                proof {
                    if pre && single {
                        let v = start.spec_virt() as usize;
                        let e = m0.spec_entry(table@, index as int);
                        if was_present {
                            assert(spec_lookup(m0, table@, level as nat, v) == spec_lookup(
                                m1,
                                next@,
                                (level - 1) as nat,
                                v,
                            ));
                        } else {
                            assert(next@ != table@);
                            let j = spec_pt_index(v, (level - 1) as usize);
                            lemma_index_bound(v, (level - 1) as usize);
                            assert(m1.spec_entry(next@, j as int) == 0);
                            assert(!spec_pte_is_present(0u64)) by (bit_vector);
                            assert(spec_lookup(m1, next@, (level - 1) as nat, v) is None);
                            assert(spec_lookup(m0, table@, level as nat, v) is None);
                        }
                    }
                }
                let res = Self::map_inner(
                    mem,
                    alloc,
                    pointer,
                    next,
                    level - 1,
                    phys_base,
                    perms,
                    cache_mode,
                    Ghost(lv_next),
                );
                proof {
                    if pre {
                        let lv2 = choose|lv2: Map<usize, nat>|
                            #[trigger] levels_extend(lv_next, lv2) && mapping_state(*mem, lv2, *alloc);
                        lemma_present_kept_trans(m0, m1, *mem, lv_cur, lv_next);
                        lemma_present_kept_trans(m_start, m0, *mem, lv, lv_cur);
                        if phys_fits {
                            lemma_mapped_range_kept(m0, *mem, lv_cur, table@, level, start, p0, phys_base@);
                            lemma_child_range(*mem, table@, level, next@, p0, *pointer, phys_base@);
                        }
                        lemma_mapped_as_range_kept(m0, *mem, lv_cur, table@, level as nat, start.spec_virt(), p0.spec_virt(), perms, cache_mode);
                        lemma_child_mapped_as(*mem, table@, level, next@, p0, *pointer, perms, cache_mode);
                        lv_cur = lv2;
                    }
                }
                match res {
                    Err(e) => {
                        proof {
                            if pre {
                                assert(levels_extend(lv, lv_cur));
                            }
                        }
                        return Err(e);
                    },
                    Ok(()) => {},
                }
            }
        }
        proof {
            if pre {
                assert(levels_extend(lv, lv_cur));
            }
            if single {
                lemma_boundary_above(start.spec_virt(), level as nat);
            }
        }
        Ok(())
    }

    fn walk_update<G: GatherInvalidations>(
        mem: &mut PageTableMemory,
        gather: &mut G,
        pointer: &mut MappingPointer,
        update: PteUpdate,
        table: PhysFrameNum,
        level: usize,
    ) -> (r: Result<()>)
        requires
            level < 4,
            old(pointer).spec_base() + old(pointer).spec_size() + 0x800_0000 <= usize::MAX,
        ensures
            final(pointer).spec_base() == old(pointer).spec_base(),
            final(pointer).spec_size() == old(pointer).spec_size(),
            old(pointer).spec_offset() <= final(pointer).spec_offset(),
            r is Ok ==> final(pointer).spec_virt() >= spec_walk_limit(*old(pointer), level as nat),
            mem_updated(update, *old(mem), *final(mem)),
            first_walk_aligned(*old(mem), table@, level as nat, old(pointer).spec_virt() as usize) ==> {
                &&& final(pointer).spec_virt() <= spec_walk_limit(*old(pointer), level as nat)
                &&& update == PteUpdate::Clear && r is Ok ==> forall|vpn: usize|
                    old(pointer).spec_virt() <= vpn < final(pointer).spec_virt() ==> #[trigger] spec_lookup(
                        *final(mem),
                        table@,
                        level as nat,
                        vpn,
                    ) is None
                &&& update is Protect && r is Ok ==> forall|vpn: usize|
                    old(pointer).spec_virt() <= vpn < final(pointer).spec_virt() ==> #[trigger] perms_ok(
                        *final(mem),
                        table@,
                        level as nat,
                        vpn,
                        update->Protect_0,
                    )
            },
        decreases level,
    {
        let max_virt = walk_level(level, pointer);
        let ghost start = *pointer;
        let ghost mem0 = *mem;
        let ghost aligned = first_walk_aligned(mem0, table@, level as nat, start.spec_virt() as usize);
        proof {
            lemma_mem_updated_refl(update, mem0);
        }
        while pointer.virt().as_usize() < max_virt
            invariant
                level < 4,
                mem0 == *old(mem),
                mem_updated(update, mem0, *mem),
                start == *old(pointer),
                pointer.spec_base() == start.spec_base(),
                pointer.spec_size() == start.spec_size(),
                start.spec_offset() <= pointer.spec_offset(),
                max_virt == spec_walk_limit(start, level as nat),
                start.spec_virt() <= max_virt <= start.spec_base() + start.spec_size(),
                start.spec_base() + start.spec_size() + 0x800_0000 <= usize::MAX,
                aligned == first_walk_aligned(mem0, table@, level as nat, start.spec_virt() as usize),
                aligned ==> {
                    &&& pointer.spec_virt() <= max_virt
                    &&& (pointer.spec_virt() == start.spec_virt() && *mem == mem0) || pointer.spec_virt()
                        % spec_level_page_count(level as nat) as int == 0 || pointer.spec_virt() >= max_virt
                    &&& update == PteUpdate::Clear ==> forall|vpn: usize|
                        start.spec_virt() <= vpn < pointer.spec_virt() ==> #[trigger] spec_lookup(
                            *mem,
                            table@,
                            level as nat,
                            vpn,
                        ) is None
                    &&& update is Protect ==> forall|vpn: usize|
                        start.spec_virt() <= vpn < pointer.spec_virt() ==> #[trigger] perms_ok(
                            *mem,
                            table@,
                            level as nat,
                            vpn,
                            update->Protect_0,
                        )
                },
            decreases start.spec_base() + start.spec_size() - pointer.spec_virt(),
        {
            proof {
                use_type_invariant(&*pointer);
                lemma_level_sizes(level as nat);
                lemma_boundary(start.spec_virt(), pointer.spec_virt(), level as nat);
            }
            let ghost mem1 = *mem;
            let ghost p1 = *pointer;
            if level == 0 {
                Self::update_terminal(mem, gather, pointer, update, table, level);
                proof {
                    lemma_mem_updated_trans(update, mem0, mem1, *mem);
                    if aligned && update == PteUpdate::Clear {
                        lemma_unmapped_kept(mem1, *mem, table@, 0, start.spec_virt(), p1.spec_virt());
                        assert(0u64 & 1u64 == 0) by (bit_vector);
                        lemma_block_unmapped(*mem, table@, 0, p1.spec_virt(), pointer.spec_virt());
                    }
                    if aligned && update is Protect {
                        self::lemma_perms_range_kept(mem1, *mem, update->Protect_0, table@, 0, start.spec_virt(), p1.spec_virt());
                        lemma_block_perms(*mem, table@, 0, p1.spec_virt(), pointer.spec_virt(), update->Protect_0);
                    }
                }
            } else {
                let index = pointer.virt().pt_index(level);
                match Self::next_table(mem, table, index, level) {
                    Ok(next) => {
                        proof {
                            if aligned {
                                if p1.spec_virt() % spec_level_page_count(level as nat) as int == 0 {
                                    lemma_level_sizes((level - 1) as nat);
                                    let c = spec_level_page_count((level - 1) as nat) as int;
                                    let k = p1.spec_virt() / spec_level_page_count(level as nat) as int;
                                    vstd::arithmetic::div_mod::lemma_fundamental_div_mod(p1.spec_virt(), spec_level_page_count(level as nat) as int);
                                    assert(p1.spec_virt() == (k * 512) * c) by (nonlinear_arith)
                                        requires p1.spec_virt() == spec_level_page_count(level as nat) as int * k,
                                            spec_level_page_count(level as nat) == 512 * c;
                                    vstd::arithmetic::div_mod::lemma_mod_multiples_basic(k * 512, c);
                                    lemma_aligned_walk(*mem, next@, (level - 1) as nat, p1.spec_virt() as usize);
                                } else {
                                    assert(p1.spec_virt() == start.spec_virt() && *mem == mem0);
                                }
                            }
                        }
                        let r = Self::walk_update(mem, gather, pointer, update, next, level - 1);
                        proof {
                            lemma_mem_updated_trans(update, mem0, mem1, *mem);
                            if aligned {
                                let b = spec_table_boundary(p1.spec_virt(), (level - 1) as nat);
                                let c = spec_level_page_count(level as nat) as int;
                                let q = p1.spec_virt() / c;
                                assert(spec_level_span((level - 1) as nat) == c);
                                assert(b == (q + 1) * c);
                                vstd::arithmetic::div_mod::lemma_mod_multiples_basic(q + 1, c);
                                if update == PteUpdate::Clear && r is Ok {
                                    lemma_unmapped_kept(mem1, *mem, table@, level as nat, start.spec_virt(), p1.spec_virt());
                                    let e = mem.spec_entry(table@, index as int);
                                    assert(entry_updated(PteUpdate::Clear, mem1.spec_entry(table@, index as int), e));
                                    lemma_child_unmapped(*mem, table@, level, next@, p1.spec_virt(), pointer.spec_virt());
                                }
                                if update is Protect && r is Ok {
                                    self::lemma_perms_range_kept(mem1, *mem, update->Protect_0, table@, level as nat, start.spec_virt(), p1.spec_virt());
                                    let e = mem.spec_entry(table@, index as int);
                                    assert(entry_updated(update, mem1.spec_entry(table@, index as int), e));
                                    lemma_child_perms(*mem, table@, level, next@, p1.spec_virt(), pointer.spec_virt(), update->Protect_0);
                                }
                            }
                        }
                        r?;
                    },
                    Err(NextTableError::TerminalEntry(_entry)) => {
                        if covers_level_entry(pointer, level) {
                            Self::update_terminal(mem, gather, pointer, update, table, level);
                            proof {
                                lemma_mem_updated_trans(update, mem0, mem1, *mem);
                                if aligned && update == PteUpdate::Clear {
                                    lemma_unmapped_kept(mem1, *mem, table@, level as nat, start.spec_virt(), p1.spec_virt());
                                    assert(0u64 & 1u64 == 0) by (bit_vector);
                                    lemma_block_unmapped(*mem, table@, level, p1.spec_virt(), pointer.spec_virt());
                                }
                                if aligned && update is Protect {
                                    self::lemma_perms_range_kept(mem1, *mem, update->Protect_0, table@, level as nat, start.spec_virt(), p1.spec_virt());
                                    lemma_block_perms(*mem, table@, level, p1.spec_virt(), pointer.spec_virt(), update->Protect_0);
                                }
                                vstd::arithmetic::div_mod::lemma_mod_add_multiples_vanish(
                                    p1.spec_virt(),
                                    spec_level_page_count(level as nat) as int,
                                );
                            }
                        } else {
                            return Err(Error::ResourceOverlap);
                        }
                    },
                    Err(NextTableError::NotPresent) => {
                        proof {
                            if aligned {
                                if p1.spec_virt() % spec_level_page_count(level as nat) as int != 0 {
                                    assert(p1.spec_virt() == start.spec_virt() && *mem == mem0);
                                }
                            }
                        }
                        pointer.advance_clamped(level_page_count(level));
                        proof {
                            if aligned && update == PteUpdate::Clear {
                                lemma_block_unmapped(*mem, table@, level, p1.spec_virt(), pointer.spec_virt());
                            }
                            if aligned && update is Protect {
                                lemma_block_perms(*mem, table@, level, p1.spec_virt(), pointer.spec_virt(), update->Protect_0);
                            }
                            vstd::arithmetic::div_mod::lemma_mod_add_multiples_vanish(
                                p1.spec_virt(),
                                spec_level_page_count(level as nat) as int,
                            );
                        }
                    },
                }
            }
            proof {
                use_type_invariant(&*pointer);
            }
        }
        Ok(())
    }

    /// Unlinks every page table below the root that lies in `base..base + size` and is either
    /// covered entirely by the range or empty, returning the unlinked tables (in the order they
    /// were unlinked) so that their frames can be freed.
    ///
    /// Entries are only ever cleared, never written otherwise. No page of the range is then mapped
    /// through a last-level table, where the walk for its first page meets an entry above the last
    /// two levels that points to no table only at the first page of that entry's span
    /// ([`cull_walk_aligned`]).
    pub fn cull_tables(&mut self, mem: &mut PageTableMemory, base: VirtPageNum, size: usize) -> (r:
        Vec<PhysFrameNum>)
        requires
            base@ + size + 0x800_0000 <= usize::MAX,
            base@ % 512 == 0,
            size % 512 == 0,
        ensures
            forall|t: usize, i: int|
                #![trigger final(mem).spec_entry(t, i)]
                final(mem).spec_entry(t, i) == old(mem).spec_entry(t, i) || final(mem).spec_entry(
                    t,
                    i,
                ) == 0,
            forall|k: int|
                0 <= k < r@.len() ==> old(mem).links_to((#[trigger] r@[k])@),
            cull_walk_aligned(*old(mem), old(self).spec_root(), 3, base@) ==> forall|vpn: usize|
                base@ <= vpn < base@ + size && vpn < spec_table_boundary(base@ as int, 3)
                    ==> !#[trigger] small_mapped(*final(mem), old(self).spec_root(), 3, vpn),
    {
        let mut culled: Vec<PhysFrameNum> = Vec::new();
        let mut pointer = MappingPointer::new(base, size);
        let ghost p0 = pointer;
        Self::cull_inner(mem, &mut culled, &mut pointer, self.root, PT_LEVEL_COUNT - 1);
        proof {
            if cull_walk_aligned(*old(mem), self.spec_root(), 3, base@) {
                assert forall|vpn: usize|
                    base@ <= vpn < base@ + size && vpn < spec_table_boundary(base@ as int, 3)
                        implies !#[trigger] small_mapped(*mem, self.spec_root(), 3, vpn) by {
                    assert(p0.spec_virt() <= vpn < pointer.spec_virt());
                }
            }
        }
        culled
    }

    fn cull_inner(
        mem: &mut PageTableMemory,
        culled: &mut Vec<PhysFrameNum>,
        pointer: &mut MappingPointer,
        table: PhysFrameNum,
        level: usize,
    )
        requires
            0 < level < 4,
            old(pointer).spec_base() + old(pointer).spec_size() + 0x800_0000 <= usize::MAX,
            old(pointer).spec_virt() % 512 == 0,
            (old(pointer).spec_base() + old(pointer).spec_size()) % 512 == 0,
        ensures
            final(pointer).spec_base() == old(pointer).spec_base(),
            final(pointer).spec_size() == old(pointer).spec_size(),
            final(pointer).spec_virt() >= spec_walk_limit(*old(pointer), level as nat),
            final(pointer).spec_virt() % 512 == 0,
            forall|t: usize, i: int|
                #![trigger final(mem).spec_entry(t, i)]
                final(mem).spec_entry(t, i) == old(mem).spec_entry(t, i) || final(mem).spec_entry(
                    t,
                    i,
                ) == 0,
            final(culled)@.len() >= old(culled)@.len(),
            forall|k: int| 0 <= k < old(culled)@.len() ==> final(culled)@[k] == old(culled)@[k],
            forall|k: int|
                old(culled)@.len() <= k < final(culled)@.len() ==> old(mem).links_to((#[trigger] final(culled)@[k])@),
            cull_walk_aligned(*old(mem), table@, level as nat, old(pointer).spec_virt() as usize) ==> {
                &&& final(pointer).spec_virt() <= spec_walk_limit(*old(pointer), level as nat)
                &&& forall|vpn: usize|
                    old(pointer).spec_virt() <= vpn < final(pointer).spec_virt() ==> !#[trigger] small_mapped(
                        *final(mem),
                        table@,
                        level as nat,
                        vpn,
                    )
            },
        decreases level,
    {
        let max_virt = walk_level(level, pointer);
        let ghost start = *pointer;
        let ghost mem0 = *mem;
        let ghost culled0 = culled@;
        let ghost aligned = cull_walk_aligned(mem0, table@, level as nat, start.spec_virt() as usize);
        while pointer.virt().as_usize() < max_virt
            invariant
                0 < level < 4,
                start == *old(pointer),
                mem0 == *old(mem),
                culled0 == old(culled)@,
                pointer.spec_base() == start.spec_base(),
                pointer.spec_size() == start.spec_size(),
                start.spec_offset() <= pointer.spec_offset(),
                pointer.spec_virt() <= start.spec_base() + start.spec_size(),
                pointer.spec_virt() % 512 == 0,
                (start.spec_base() + start.spec_size()) % 512 == 0,
                max_virt == spec_walk_limit(start, level as nat),
                start.spec_virt() <= max_virt <= start.spec_base() + start.spec_size(),
                start.spec_base() + start.spec_size() + 0x800_0000 <= usize::MAX,
                forall|t: usize, i: int|
                    #![trigger mem.spec_entry(t, i)]
                    mem.spec_entry(t, i) == mem0.spec_entry(t, i) || mem.spec_entry(t, i) == 0,
                culled@.len() >= culled0.len(),
                forall|k: int| 0 <= k < culled0.len() ==> culled@[k] == culled0[k],
                forall|k: int|
                    culled0.len() <= k < culled@.len() ==> mem0.links_to((#[trigger] culled@[k])@),
                aligned == cull_walk_aligned(mem0, table@, level as nat, start.spec_virt() as usize),
                aligned ==> {
                    &&& pointer.spec_virt() <= max_virt
                    &&& (pointer.spec_virt() == start.spec_virt() && *mem == mem0) || pointer.spec_virt()
                        % spec_level_page_count(level as nat) as int == 0 || pointer.spec_virt() >= max_virt
                    &&& forall|vpn: usize|
                        start.spec_virt() <= vpn < pointer.spec_virt() ==> !#[trigger] small_mapped(
                            *mem,
                            table@,
                            level as nat,
                            vpn,
                        )
                },
            decreases start.spec_base() + start.spec_size() - pointer.spec_virt(), (if mem.spec_entry(
                table@,
                spec_pt_index(pointer.spec_virt() as usize, level) as int,
            ) == 0 {
                0int
            } else {
                1int
            }),
        {
            proof {
                use_type_invariant(&*pointer);
                lemma_level_sizes(level as nat);
                lemma_boundary(start.spec_virt(), pointer.spec_virt(), level as nat);
            }
            let next_table_covered = covers_level_entry(pointer, level);
            let index = pointer.virt().pt_index(level);
            match Self::next_table(mem, table, index, level) {
                Ok(next) => {
                    proof {
                        assert(mem.spec_entry(table@, index as int) != 0) by {
                            assert(0u64 & 1u64 == 0) by (bit_vector);
                        }
                    }
                    proof {
                        if level == 1 {
                            assert(spec_level_page_count(1) == 512) by {
                                vstd::arithmetic::power2::lemma2_to64();
                            }
                            assert(next_table_covered);
                        }
                    }
                    proof {
                        assert(mem.spec_entry(table@, index as int) == mem0.spec_entry(
                            table@,
                            index as int,
                        ));
                        assert(mem0.links_to(next@));
                    }
                    let ghost mem_before = *mem;
                    let ghost culled_before = culled@;
                    let ghost p1 = *pointer;
                    proof {
                        if aligned && level > 1 {
                            if p1.spec_virt() % spec_level_page_count(level as nat) as int == 0 {
                                lemma_level_sizes((level - 1) as nat);
                                let c = spec_level_page_count((level - 1) as nat) as int;
                                let k = p1.spec_virt() / spec_level_page_count(level as nat) as int;
                                vstd::arithmetic::div_mod::lemma_fundamental_div_mod(p1.spec_virt(), spec_level_page_count(level as nat) as int);
                                assert(p1.spec_virt() == (k * 512) * c) by (nonlinear_arith)
                                    requires p1.spec_virt() == spec_level_page_count(level as nat) as int * k,
                                        spec_level_page_count(level as nat) == 512 * c;
                                vstd::arithmetic::div_mod::lemma_mod_multiples_basic(k * 512, c);
                                lemma_cull_aligned(*mem, next@, (level - 1) as nat, p1.spec_virt() as usize);
                            } else if p1.spec_virt() < max_virt {
                                assert(p1.spec_virt() == start.spec_virt() && *mem == mem0);
                            }
                        }
                    }
                    if level > 1 {
                        Self::cull_inner(mem, culled, pointer, next, level - 1);
                        proof {
                            assert forall|k: int|
                                culled0.len() <= k < culled@.len() implies mem0.links_to(
                                (#[trigger] culled@[k])@,
                            ) by {
                                if k >= culled_before.len() {
                                    lemma_links_monotone(mem0, mem_before, culled@[k]@);
                                }
                            }
                        }
                    }
                    let ghost mem_c = *mem;
                    if next_table_covered || Self::table_is_empty(mem, next, level - 1) {
                        mem.write(table, index, make_empty_pte());
                        culled.push(next);
                    }
                    proof {
                        if aligned {
                            lemma_small_range_kept(mem_before, *mem, table@, level as nat, start.spec_virt(), p1.spec_virt());
                            if level > 1 {
                                let b = spec_table_boundary(p1.spec_virt(), (level - 1) as nat);
                                let c = spec_level_page_count(level as nat) as int;
                                let q = p1.spec_virt() / c;
                                assert(spec_level_span((level - 1) as nat) == c);
                                assert(b == (q + 1) * c);
                                vstd::arithmetic::div_mod::lemma_mod_multiples_basic(q + 1, c);
                                lemma_small_range_kept(mem_c, *mem, next@, (level - 1) as nat, p1.spec_virt(), pointer.spec_virt());
                                assert(mem_c.spec_entry(table@, index as int) == mem_before.spec_entry(table@, index as int)
                                    || mem_c.spec_entry(table@, index as int) == 0);
                                lemma_child_not_small(*mem, table@, level, next@, p1.spec_virt(), pointer.spec_virt());
                            }
                        }
                    }
                },
                Err(_) => {
                    let ghost v0 = pointer.spec_virt();
                    proof {
                        if aligned && level > 1 && v0 % spec_level_page_count(level as nat) as int != 0 {
                            assert(v0 == start.spec_virt() && *mem == mem0);
                        }
                        if level == 1 {
                            assert(spec_level_page_count(1) == 512) by {
                                vstd::arithmetic::power2::lemma2_to64();
                            }
                        }
                    }
                    pointer.advance_clamped(level_page_count(level));
                    proof {
                        let c = spec_level_page_count(level as nat) as int;
                        if pointer.spec_virt() != start.spec_base() + start.spec_size() {
                            assert(pointer.spec_virt() == v0 + c);
                            vstd::arithmetic::div_mod::lemma_mod_adds(v0, c, 512);
                        }
                        if aligned {
                            lemma_block_not_small(*mem, table@, level, v0, pointer.spec_virt());
                            vstd::arithmetic::div_mod::lemma_mod_add_multiples_vanish(v0, c);
                        }
                    }
                },
            }
            proof {
                use_type_invariant(&*pointer);
            }
        }
    }

    /// Whether no entry of `table`, a table at `level`, is present.
    fn table_is_empty(mem: &PageTableMemory, table: PhysFrameNum, level: usize) -> (r: bool)
        ensures
            r == forall|i: int| 0 <= i < 512 ==> !spec_pte_is_present(#[trigger] mem.spec_entry(table@, i)),
    {
        let mut i: usize = 0;
        while i < PT_ENTRY_COUNT
            invariant
                i <= 512,
                forall|k: int| 0 <= k < i ==> !spec_pte_is_present(#[trigger] mem.spec_entry(table@, k)),
            decreases 512 - i,
        {
            if pte_is_present(mem.read(table, i), level) {
                return false;
            }
            i = i + 1;
        }
        true
    }

    /// Follows entry `index` of `table` to the next table, allocating and linking a fresh empty
    /// table when the entry is empty.
    fn next_table_or_create<A: PageTableAlloc>(
        mem: &mut PageTableMemory,
        alloc: &mut A,
        table: PhysFrameNum,
        index: usize,
        level: usize,
    ) -> (r: Result<PhysFrameNum>)
        requires
            0 < level < 4,
            index < 512,
            old(alloc).ready(),
        ensures
            final(alloc).ready(),
            old(alloc).hands_out_fresh() ==> final(alloc).hands_out_fresh() && forall|g: usize|
                #[trigger] final(alloc).may_hand_out(g) ==> old(alloc).may_hand_out(g),
            final(alloc).available() + 1 >= old(alloc).available(),
            final(alloc).bounds() == old(alloc).bounds(),
            ({
                let entry = old(mem).spec_entry(table@, index as int);
                &&& spec_pte_is_present(entry) ==> *final(alloc) == *old(alloc)
                &&& !spec_pte_is_present(entry) && old(alloc).available() > 0 ==> r is Ok
                &&& spec_pte_is_present(entry) && !spec_pte_is_terminal(entry, level) ==> (r
                    matches Ok(next) && next@ == spec_pte_frame(entry) && *final(mem) == *old(mem))
                &&& spec_pte_is_present(entry) && spec_pte_is_terminal(entry, level) ==> r
                    == Err::<PhysFrameNum, Error>(Error::ResourceOverlap) && *final(mem) == *old(mem)
                &&& !spec_pte_is_present(entry) && r is Err ==> *final(mem) == *old(mem)
                &&& !spec_pte_is_present(entry) && r is Ok ==> {
                    let next = r->Ok_0;
                    &&& spec_pte_is_present(final(mem).spec_entry(table@, index as int))
                    &&& !spec_pte_is_terminal(final(mem).spec_entry(table@, index as int), level)
                    &&& next@ < max_pte_frame() ==> spec_pte_frame(
                        final(mem).spec_entry(table@, index as int),
                    ) == next@
                    &&& next@ != table@ ==> forall|i: int|
                        0 <= i < 512 ==> #[trigger] final(mem).spec_entry(next@, i) == 0
                    &&& forall|t: usize, i: int|
                        #![trigger final(mem).spec_entry(t, i)]
                        !(t == table@ && i == index) ==> final(mem).spec_entry(t, i) == if t == next@ {
                            0
                        } else {
                            old(mem).spec_entry(t, i)
                        }
                    &&& old(alloc).hands_out_fresh() ==> old(alloc).may_hand_out(next@)
                        && !final(alloc).may_hand_out(next@)
                }
            }),
    {
        match Self::next_table(mem, table, index, level) {
            Ok(next) => {
                return Ok(next);
            },
            Err(NextTableError::TerminalEntry(_)) => {
                return Err(Error::ResourceOverlap);
            },
            Err(NextTableError::NotPresent) => {},
        }
        let new_table = alloc.allocate()?;
        mem.clear_table(new_table);
        mem.write(table, index, make_intermediate_pte(level, new_table.as_usize()));
        Ok(new_table)
    }

    /// Reads entry `index` of `table` and returns the table it points to, if any.
    fn next_table(mem: &PageTableMemory, table: PhysFrameNum, index: usize, level: usize) -> (r:
        core::result::Result<PhysFrameNum, NextTableError>)
        requires
            index < 512,
        ensures
            ({
                let entry = mem.spec_entry(table@, index as int);
                match r {
                    Ok(next) => spec_pte_is_present(entry) && !spec_pte_is_terminal(entry, level)
                        && next@ == spec_pte_frame(entry),
                    Err(NextTableError::NotPresent) => !spec_pte_is_present(entry),
                    Err(NextTableError::TerminalEntry(e)) => spec_pte_is_present(entry)
                        && spec_pte_is_terminal(entry, level) && e == entry,
                }
            }),
    {
        let pte = mem.read(table, index);
        if !pte_is_present(pte, level) {
            return Err(NextTableError::NotPresent);
        }
        if pte_is_terminal(pte, level) {
            return Err(NextTableError::TerminalEntry(pte));
        }
        Ok(PhysFrameNum::new(get_pte_frame(pte, level)))
    }

    /// Maps the pointer's current page (a whole entry at `level`) to the matching frame, unless
    /// the entry is already in use.
    fn map_terminal(
        mem: &mut PageTableMemory,
        pointer: &mut MappingPointer,
        table: PhysFrameNum,
        level: usize,
        phys_base: PhysFrameNum,
        perms: PageTablePerms,
        cache_mode: CacheMode,
    ) -> (r: Result<()>)
        requires
            level < 4,
            old(pointer).spec_offset() + spec_level_page_count(level as nat) <= old(
                pointer,
            ).spec_size(),
            old(pointer).spec_base() + old(pointer).spec_size() <= usize::MAX,
            phys_base@ + old(pointer).spec_size() <= usize::MAX,
        ensures
            ({
                let index = spec_pt_index(old(pointer).spec_virt() as usize, level);
                let old_entry = old(mem).spec_entry(table@, index as int);
                let new_entry = final(mem).spec_entry(table@, index as int);
                &&& final(pointer).spec_base() == old(pointer).spec_base()
                &&& final(pointer).spec_size() == old(pointer).spec_size()
                &&& spec_pte_is_present(old_entry) ==> r == Err::<(), Error>(
                    Error::ResourceOverlap,
                ) && *final(mem) == *old(mem) && final(pointer).spec_offset() == old(
                    pointer,
                ).spec_offset()
                &&& !spec_pte_is_present(old_entry) ==> {
                    &&& r is Ok
                    &&& final(pointer).spec_offset() == old(pointer).spec_offset()
                        + spec_level_page_count(level as nat)
                    &&& spec_pte_is_present(new_entry)
                    &&& spec_pte_is_terminal(new_entry, level)
                    &&& new_entry & spec_perm_mask() == spec_perm_bits(perms)
                    &&& new_entry & (PTE_WRITE_THROUGH | PTE_CACHE_DISABLE) == spec_cache_bits(cache_mode)
                    &&& phys_base@ + old(pointer).spec_offset() < max_pte_frame() ==> spec_pte_frame(
                        new_entry,
                    ) == phys_base@ + old(pointer).spec_offset()
                    &&& forall|t: usize, i: int|
                        !(t == table@ && i == index) ==> #[trigger] final(mem).spec_entry(t, i)
                            == old(mem).spec_entry(t, i)
                }
            }),
    {
        proof {
            use_type_invariant(&*pointer);
        }
        let index = pointer.virt().pt_index(level);
        if pte_is_present(mem.read(table, index), level) {
            return Err(Error::ResourceOverlap);
        }
        let frame = phys_base.as_usize() + pointer.offset();
        mem.write(table, index, make_terminal_pte(level, frame, perms, cache_mode));
        pointer.advance(level_page_count(level));
        Ok(())
    }

    /// Rewrites the entry for the pointer's current page with `update`, reports the page to
    /// `gather`, and advances past the entry.
    fn update_terminal<G: GatherInvalidations>(
        mem: &mut PageTableMemory,
        gather: &mut G,
        pointer: &mut MappingPointer,
        update: PteUpdate,
        table: PhysFrameNum,
        level: usize,
    )
        requires
            level < 4,
            old(pointer).spec_offset() + spec_level_page_count(level as nat) <= old(
                pointer,
            ).spec_size(),
            old(pointer).spec_base() + old(pointer).spec_size() <= usize::MAX,
        ensures
            final(pointer).spec_base() == old(pointer).spec_base(),
            final(pointer).spec_size() == old(pointer).spec_size(),
            final(pointer).spec_offset() == old(pointer).spec_offset() + spec_level_page_count(
                level as nat,
            ),
            ({
                let index = spec_pt_index(old(pointer).spec_virt() as usize, level);
                &&& spec_update_result(
                    update,
                    old(mem).spec_entry(table@, index as int),
                    final(mem).spec_entry(table@, index as int),
                    level,
                )
                &&& forall|t: usize, i: int|
                    !(t == table@ && i == index) ==> #[trigger] final(mem).spec_entry(t, i)
                        == old(mem).spec_entry(t, i)
            }),
            mem_updated(update, *old(mem), *final(mem)),
    {
        let index = pointer.virt().pt_index(level);
        let entry = apply_update(update, mem.read(table, index), level);
        mem.write(table, index, entry);
        gather.add_tlb_flush(pointer.virt());
        pointer.advance(level_page_count(level));
        proof {
            assert forall|t: usize, i: int| #[trigger] entry_updated(update, old(mem).spec_entry(t, i), mem.spec_entry(t, i)) by {
                if t == table@ && i == index {
                } else {
                    assert(mem.spec_entry(t, i) == old(mem).spec_entry(t, i));
                }
            }
        }
    }
}

/// A memory is its own update.
proof fn lemma_mem_updated_refl(update: PteUpdate, mem: PageTableMemory)
    ensures
        mem_updated(update, mem, mem),
{
    assert forall|t: usize, i: int| #[trigger] entry_updated(update, mem.spec_entry(t, i), mem.spec_entry(t, i)) by {
    }
}

/// An update of an update is an update.
proof fn lemma_mem_updated_trans(update: PteUpdate, m0: PageTableMemory, m1: PageTableMemory, m2: PageTableMemory)
    requires
        mem_updated(update, m0, m1),
        mem_updated(update, m1, m2),
    ensures
        mem_updated(update, m0, m2),
{
    assert forall|t: usize, i: int| #[trigger] entry_updated(update, m0.spec_entry(t, i), m2.spec_entry(t, i)) by {
        assert(entry_updated(update, m0.spec_entry(t, i), m1.spec_entry(t, i)));
        assert(entry_updated(update, m1.spec_entry(t, i), m2.spec_entry(t, i)));
    }
}

/// Whether two entries map the same thing: both present or both not, both large pages or
/// neither, and to the same frame; they may differ in permissions and caching.
pub open spec fn same_target(a: PageTableEntry, b: PageTableEntry) -> bool {
    &&& spec_pte_is_present(a) == spec_pte_is_present(b)
    &&& (a & PTE_LARGE != 0) == (b & PTE_LARGE != 0)
    &&& spec_pte_frame(a) == spec_pte_frame(b)
}

/// Whether `new` is a possible result of applying `update` to `old` at `level`: clearing yields an
/// empty entry, and protecting keeps what the entry maps.
pub open spec fn spec_update_result(
    update: PteUpdate,
    old: PageTableEntry,
    new: PageTableEntry,
    level: usize,
) -> bool {
    match update {
        PteUpdate::Clear => new == 0,
        PteUpdate::Protect(perms) => same_target(old, new) && new & spec_perm_mask() == spec_perm_bits(perms),
    }
}

/// Whether `new`, an entry after a walk applying `update`, is `old` left alone or updated.
pub open spec fn entry_updated(update: PteUpdate, old: PageTableEntry, new: PageTableEntry) -> bool {
    new == old || match update {
        PteUpdate::Clear => new == 0,
        PteUpdate::Protect(perms) => same_target(old, new) && new & spec_perm_mask() == spec_perm_bits(perms),
    }
}

/// Whether every entry of `new` is that of `old` left alone or updated by `update`.
pub open spec fn mem_updated(update: PteUpdate, old: PageTableMemory, new: PageTableMemory) -> bool {
    forall|t: usize, i: int| #[trigger] entry_updated(update, old.spec_entry(t, i), new.spec_entry(t, i))
}

/// The frame that page `vpn` is mapped to by the table in frame `table` at `level` of `mem`, or
/// `None` when an entry on the way is empty. A large page maps each of its pages to the frame at
/// the same offset from its first frame.
pub open spec fn spec_lookup(mem: PageTableMemory, table: usize, level: nat, vpn: usize) -> Option<int>
    decreases level,
{
    let e = mem.spec_entry(table, spec_pt_index(vpn, level as usize) as int);
    if !spec_pte_is_present(e) {
        None
    } else if level == 0 || e & PTE_LARGE != 0 {
        Some(spec_pte_frame(e) + vpn as int % spec_level_page_count(level) as int)
    } else {
        spec_lookup(mem, spec_pte_frame(e), (level - 1) as nat, vpn)
    }
}

/// Whether `lv` gives each of some tables of `mem` a level, such that every entry of a table of
/// `lv` above the last level that points to a further table points to a table of `lv` one level
/// lower.
pub open spec fn tables_leveled(mem: PageTableMemory, lv: Map<usize, nat>) -> bool {
    forall|t: usize, i: int|
        #![trigger mem.spec_entry(t, i), lv[t]]
        lv.contains_key(t) && lv[t] > 0 && 0 <= i < 512 && spec_pte_is_present(mem.spec_entry(t, i))
            && mem.spec_entry(t, i) & PTE_LARGE == 0 ==> {
            let next = spec_pte_frame(mem.spec_entry(t, i));
            &&& lv.contains_key(next)
            &&& lv[next] == lv[t] - 1
        }
}

/// Whether `lv` keeps every table of `lv0` at its level.
pub open spec fn levels_extend(lv0: Map<usize, nat>, lv: Map<usize, nat>) -> bool {
    forall|t: usize| #[trigger] lv0.contains_key(t) ==> lv.contains_key(t) && lv[t] == lv0[t]
}

/// Whether every present entry of a table of `lv` in `m0` is the same in `m1`.
pub open spec fn present_entries_kept(m0: PageTableMemory, m1: PageTableMemory, lv: Map<usize, nat>) -> bool {
    forall|t: usize, i: int|
        #![trigger m1.spec_entry(t, i)]
        lv.contains_key(t) && 0 <= i < 512 && spec_pte_is_present(m0.spec_entry(t, i))
            ==> m1.spec_entry(t, i) == m0.spec_entry(t, i)
}

/// Whether pages can be mapped into the tables `lv` of `mem` with tables from `alloc`: the tables
/// are leveled, `alloc` hands out each frame at most once, none of them a table of `lv`, and only
/// frames that an entry can hold.
pub open spec fn mapping_state<A: PageTableAlloc>(mem: PageTableMemory, lv: Map<usize, nat>, alloc: A) -> bool {
    &&& tables_leveled(mem, lv)
    &&& alloc.hands_out_fresh()
    &&& forall|f: usize| #[trigger] lv.contains_key(f) ==> !alloc.may_hand_out(f)
    &&& forall|g: usize| #[trigger] alloc.may_hand_out(g) ==> g < max_pte_frame()
}

/// Whether pages can be mapped into the page table rooted at `root` in `mem` with tables from
/// `alloc`, each mapping found where it was put: some leveling of its tables has the root at the
/// top level, and `alloc` hands out each frame at most once, never a table's, and only frames
/// that an entry can hold.
pub open spec fn mapping_ready<A: PageTableAlloc>(mem: PageTableMemory, root: usize, alloc: A) -> bool {
    exists|lv: Map<usize, nat>|
        #[trigger] mapping_state(mem, lv, alloc) && lv.contains_key(root) && lv[root] == 3
}

/// A page table ready for mapping with an allocator stays ready with another allocator that hands
/// out each frame at most once and only frames that the first one could.
pub proof fn lemma_ready_with_fewer_frames<A: PageTableAlloc, B: PageTableAlloc>(
    mem: PageTableMemory,
    root: usize,
    a: A,
    b: B,
)
    requires
        mapping_ready(mem, root, a),
        b.hands_out_fresh(),
        forall|g: usize| #[trigger] b.may_hand_out(g) ==> a.may_hand_out(g),
    ensures
        mapping_ready(mem, root, b),
{
    let lv = choose|lv: Map<usize, nat>| #[trigger] mapping_state(mem, lv, a) && lv.contains_key(root) && lv[root] == 3;
    assert(mapping_state(mem, lv, b));
}

/// The index into a table is below the number of entries.
proof fn lemma_index_bound(vpn: usize, level: usize)
    ensures
        spec_pt_index(vpn, level) < 512,
{
    let s = (9 * level) as usize;
    assert((vpn >> s) & 511usize < 512) by (bit_vector);
}

/// Pages in the same block of `2^(9 * level)` pages use the same entry of a table at `level`.
proof fn lemma_same_index(a: usize, b: usize, level: usize)
    requires
        level < 4,
        a as int / spec_level_page_count(level as nat) as int == b as int / spec_level_page_count(level as nat) as int,
    ensures
        spec_pt_index(a, level) == spec_pt_index(b, level),
{
    let s = (9 * level) as usize;
    assert(s < usize::BITS) by {
        assert(usize::BITS == 32 || usize::BITS == 64);
    }
    vstd::bits::lemma_usize_shr_is_div(a, s);
    vstd::bits::lemma_usize_shr_is_div(b, s);
}

/// A lookup that finds a mapping through tables of `lv` finds the same one once only entries that
/// were not present, or entries of other tables, have changed.
pub proof fn lemma_lookup_kept(
    m0: PageTableMemory,
    m1: PageTableMemory,
    lv: Map<usize, nat>,
    table: usize,
    level: nat,
    vpn: usize,
)
    requires
        tables_leveled(m0, lv),
        present_entries_kept(m0, m1, lv),
        lv.contains_key(table),
        lv[table] == level,
        spec_lookup(m0, table, level, vpn) is Some,
    ensures
        spec_lookup(m1, table, level, vpn) == spec_lookup(m0, table, level, vpn),
    decreases level,
{
    let i = spec_pt_index(vpn, level as usize) as int;
    lemma_index_bound(vpn, level as usize);
    let e = m0.spec_entry(table, i);
    assert(m1.spec_entry(table, i) == e);
    if level > 0 && e & PTE_LARGE == 0 {
        assert(lv[table] > 0);
        lemma_lookup_kept(m0, m1, lv, spec_pte_frame(e), (level - 1) as nat, vpn);
    }
}

/// Keeping the present entries of `lv` twice keeps them once, when the tables kept the second time
/// include those of `lv`.
proof fn lemma_present_kept_trans(
    m0: PageTableMemory,
    m1: PageTableMemory,
    m2: PageTableMemory,
    lv: Map<usize, nat>,
    lv1: Map<usize, nat>,
)
    requires
        present_entries_kept(m0, m1, lv),
        present_entries_kept(m1, m2, lv1),
        levels_extend(lv, lv1),
    ensures
        present_entries_kept(m0, m2, lv),
{
    assert forall|t: usize, i: int|
        lv.contains_key(t) && 0 <= i < 512 && spec_pte_is_present(m0.spec_entry(t, i)) implies
        #[trigger] m2.spec_entry(t, i) == m0.spec_entry(t, i) by {
        assert(m1.spec_entry(t, i) == m0.spec_entry(t, i));
        assert(lv1.contains_key(t));
        assert(m2.spec_entry(t, i) == m1.spec_entry(t, i));
    }
}

/// Filling an empty entry of a table of `lv` with an entry that maps a page keeps the tables
/// leveled and every present entry.
proof fn lemma_fill_terminal(
    m0: PageTableMemory,
    m1: PageTableMemory,
    lv: Map<usize, nat>,
    table: usize,
    index: int,
)
    requires
        tables_leveled(m0, lv),
        lv.contains_key(table),
        lv[table] < 4,
        !spec_pte_is_present(m0.spec_entry(table, index)),
        spec_pte_is_terminal(m1.spec_entry(table, index), lv[table] as usize),
        forall|t: usize, i: int|
            !(t == table && i == index) ==> #[trigger] m1.spec_entry(t, i) == m0.spec_entry(t, i),
    ensures
        tables_leveled(m1, lv),
        present_entries_kept(m0, m1, lv),
{
    assert forall|t: usize, i: int|
        lv.contains_key(t) && 0 <= i < 512 && spec_pte_is_present(m0.spec_entry(t, i)) implies
        #[trigger] m1.spec_entry(t, i) == m0.spec_entry(t, i) by {
        if t == table && i == index {
        }
    }
    assert forall|t: usize, i: int|
        #![trigger m1.spec_entry(t, i), lv[t]]
        lv.contains_key(t) && lv[t] > 0 && 0 <= i < 512 && spec_pte_is_present(m1.spec_entry(t, i))
            && m1.spec_entry(t, i) & PTE_LARGE == 0 implies ({
            let next = spec_pte_frame(m1.spec_entry(t, i));
            &&& lv.contains_key(next)
            &&& lv[next] == lv[t] - 1
        }) by {
        if t == table && i == index {
        } else {
            assert(m1.spec_entry(t, i) == m0.spec_entry(t, i));
        }
    }
}

/// Clearing a frame outside `lv` and linking it from an empty entry of a table of `lv` keeps every
/// present entry, and the tables stay leveled with the new one a level below the table linking
/// to it.
proof fn lemma_link_new_table(
    m0: PageTableMemory,
    m1: PageTableMemory,
    lv: Map<usize, nat>,
    table: usize,
    index: int,
    next: usize,
)
    requires
        tables_leveled(m0, lv),
        lv.contains_key(table),
        lv[table] > 0,
        !lv.contains_key(next),
        !spec_pte_is_present(m0.spec_entry(table, index)),
        spec_pte_is_present(m1.spec_entry(table, index)),
        m1.spec_entry(table, index) & PTE_LARGE == 0,
        spec_pte_frame(m1.spec_entry(table, index)) == next,
        forall|t: usize, i: int|
            !(t == table && i == index) ==> #[trigger] m1.spec_entry(t, i) == if t == next {
                0
            } else {
                m0.spec_entry(t, i)
            },
    ensures
        tables_leveled(m1, lv.insert(next, (lv[table] - 1) as nat)),
        present_entries_kept(m0, m1, lv),
        levels_extend(lv, lv.insert(next, (lv[table] - 1) as nat)),
{
    let lv1 = lv.insert(next, (lv[table] - 1) as nat);
    assert(0u64 & 1u64 == 0) by (bit_vector);
    assert forall|t: usize, i: int|
        lv.contains_key(t) && 0 <= i < 512 && spec_pte_is_present(m0.spec_entry(t, i)) implies
        #[trigger] m1.spec_entry(t, i) == m0.spec_entry(t, i) by {
        if t == table && i == index {
        }
    }
    assert forall|t: usize, i: int|
        #![trigger m1.spec_entry(t, i), lv1[t]]
        lv1.contains_key(t) && lv1[t] > 0 && 0 <= i < 512 && spec_pte_is_present(m1.spec_entry(t, i))
            && m1.spec_entry(t, i) & PTE_LARGE == 0 implies ({
            let n = spec_pte_frame(m1.spec_entry(t, i));
            &&& lv1.contains_key(n)
            &&& lv1[n] == lv1[t] - 1
        }) by {
        if t == table && i == index {
        } else if t == next {
            assert(m1.spec_entry(t, i) == 0);
        } else {
            assert(m1.spec_entry(t, i) == m0.spec_entry(t, i));
            assert(lv[t] > 0);
            let n = spec_pte_frame(m0.spec_entry(t, i));
            assert(lv.contains_key(n));
        }
    }
}

/// A page in the block of `c` pages starting at `q * c` is `q` blocks in.
proof fn lemma_in_block(vpn: int, q: int, c: int)
    requires
        c > 0,
        q * c <= vpn < q * c + c,
    ensures
        vpn / c == q,
        vpn % c == vpn - q * c,
{
    vstd::arithmetic::div_mod::lemma_fundamental_div_mod_converse(vpn, c, q, vpn - q * c);
}

/// Pages mapped through a table of `lv` stay mapped as they were while the present entries of
/// `lv` are kept.
proof fn lemma_mapped_range_kept(
    m0: PageTableMemory,
    m1: PageTableMemory,
    lv: Map<usize, nat>,
    table: usize,
    level: usize,
    start: MappingPointer,
    p0: MappingPointer,
    phys_base: usize,
)
    requires
        tables_leveled(m0, lv),
        present_entries_kept(m0, m1, lv),
        lv.contains_key(table),
        lv[table] == level,
        forall|vpn: usize|
            start.spec_virt() <= vpn < p0.spec_virt() ==> #[trigger] spec_lookup(m0, table, level as nat, vpn)
                == Some(phys_base + vpn - start.spec_base()),
    ensures
        forall|vpn: usize|
            start.spec_virt() <= vpn < p0.spec_virt() ==> #[trigger] spec_lookup(m1, table, level as nat, vpn)
                == Some(phys_base + vpn - start.spec_base()),
{
    assert forall|vpn: usize| start.spec_virt() <= vpn < p0.spec_virt() implies #[trigger] spec_lookup(
        m1,
        table,
        level as nat,
        vpn,
    ) == Some(phys_base + vpn - start.spec_base()) by {
        assert(spec_lookup(m0, table, level as nat, vpn) == Some(phys_base + vpn - start.spec_base()));
        lemma_lookup_kept(m0, m1, lv, table, level as nat, vpn);
    }
}

/// An entry mapping the aligned block of pages at the pointer's current page maps each of them
/// to the frame at the same distance from `phys_base` as the page from the pointer's base.
proof fn lemma_terminal_range(
    m: PageTableMemory,
    table: usize,
    level: usize,
    p0: MappingPointer,
    p1: MappingPointer,
    phys_base: usize,
)
    requires
        level < 4,
        0 <= p0.spec_virt() <= usize::MAX,
        p0.spec_virt() % spec_level_page_count(level as nat) as int == 0,
        p1.spec_virt() == p0.spec_virt() + spec_level_page_count(level as nat),
        ({
            let e = m.spec_entry(table, spec_pt_index(p0.spec_virt() as usize, level) as int);
            &&& spec_pte_is_present(e)
            &&& spec_pte_is_terminal(e, level)
            &&& spec_pte_frame(e) == phys_base + p0.spec_offset()
        }),
    ensures
        forall|vpn: usize|
            p0.spec_virt() <= vpn < p1.spec_virt() ==> #[trigger] spec_lookup(m, table, level as nat, vpn)
                == Some(phys_base + vpn - p0.spec_base()),
{
    let c = spec_level_page_count(level as nat) as int;
    let v = p0.spec_virt();
    lemma_level_sizes(level as nat);
    let q = v / c;
    vstd::arithmetic::div_mod::lemma_fundamental_div_mod(v, c);
    assert forall|vpn: usize| p0.spec_virt() <= vpn < p1.spec_virt() implies #[trigger] spec_lookup(
        m,
        table,
        level as nat,
        vpn,
    ) == Some(phys_base + vpn - p0.spec_base()) by {
        lemma_in_block(vpn as int, q, c);
        lemma_in_block(v, q, c);
        lemma_same_index(vpn, v as usize, level);
    }
}

/// Pages of the pointer's current table at the level below, which a table linked from the entry
/// for the pointer's current page maps, are mapped the same through the table above.
proof fn lemma_child_range(
    m: PageTableMemory,
    table: usize,
    level: usize,
    next: usize,
    p0: MappingPointer,
    p1: MappingPointer,
    phys_base: usize,
)
    requires
        0 < level < 4,
        0 <= p0.spec_virt() <= usize::MAX,
        p0.spec_virt() <= p1.spec_virt() <= spec_walk_limit(p0, (level - 1) as nat),
        ({
            let e = m.spec_entry(table, spec_pt_index(p0.spec_virt() as usize, level) as int);
            &&& spec_pte_is_present(e)
            &&& e & PTE_LARGE == 0
            &&& spec_pte_frame(e) == next
        }),
        forall|vpn: usize|
            p0.spec_virt() <= vpn < p1.spec_virt() ==> #[trigger] spec_lookup(m, next, (level - 1) as nat, vpn)
                == Some(phys_base + vpn - p0.spec_base()),
    ensures
        forall|vpn: usize|
            p0.spec_virt() <= vpn < p1.spec_virt() ==> #[trigger] spec_lookup(m, table, level as nat, vpn)
                == Some(phys_base + vpn - p0.spec_base()),
{
    let c = spec_level_page_count(level as nat) as int;
    let v = p0.spec_virt();
    lemma_level_sizes(level as nat);
    let q = v / c;
    vstd::arithmetic::div_mod::lemma_fundamental_div_mod(v, c);
    vstd::arithmetic::div_mod::lemma_mod_bound(v, c);
    assert(spec_level_span((level - 1) as nat) == c);
    assert forall|vpn: usize| p0.spec_virt() <= vpn < p1.spec_virt() implies #[trigger] spec_lookup(
        m,
        table,
        level as nat,
        vpn,
    ) == Some(phys_base + vpn - p0.spec_base()) by {
        assert(vpn < (q + 1) * c);
        assert((q + 1) * c == q * c + c) by (nonlinear_arith);
        assert(q * c <= v) by (nonlinear_arith)
            requires v == c * q + v % c, v % c >= 0;
        lemma_in_block(vpn as int, q, c);
        lemma_in_block(v, q, c);
        lemma_same_index(vpn, v as usize, level);
        assert(spec_lookup(m, next, (level - 1) as nat, vpn) == Some(phys_base + vpn - p0.spec_base()));
    }
}

/// Whether the walk for page `vpn` down from the table in frame `table` at `level` of `mem` meets
/// an empty entry only where `vpn` is the first page of the pages that entry spans.
pub open spec fn first_walk_aligned(mem: PageTableMemory, table: usize, level: nat, vpn: usize) -> bool
    decreases level,
{
    let e = mem.spec_entry(table, spec_pt_index(vpn, level as usize) as int);
    if !spec_pte_is_present(e) {
        vpn as int % spec_level_page_count(level) as int == 0
    } else if level == 0 || e & PTE_LARGE != 0 {
        true
    } else {
        first_walk_aligned(mem, spec_pte_frame(e), (level - 1) as nat, vpn)
    }
}

/// A walk from a page that starts an entry's span meets empty entries only at such pages.
proof fn lemma_aligned_walk(mem: PageTableMemory, table: usize, level: nat, vpn: usize)
    requires
        level < 4,
        vpn as int % spec_level_page_count(level) as int == 0,
    ensures
        first_walk_aligned(mem, table, level, vpn),
    decreases level,
{
    if level > 0 {
        lemma_level_sizes(level);
        lemma_level_sizes((level - 1) as nat);
        let c = spec_level_page_count((level - 1) as nat) as int;
        let k = vpn as int / spec_level_page_count(level) as int;
        vstd::arithmetic::div_mod::lemma_fundamental_div_mod(vpn as int, spec_level_page_count(level) as int);
        assert(spec_level_page_count(level) == 512 * c);
        assert(vpn as int == (k * 512) * c) by (nonlinear_arith)
            requires vpn as int == spec_level_page_count(level) as int * k, spec_level_page_count(level) == 512 * c;
        vstd::arithmetic::div_mod::lemma_mod_multiples_basic(k * 512, c);
        let e = mem.spec_entry(table, spec_pt_index(vpn, level as usize) as int);
        lemma_aligned_walk(mem, spec_pte_frame(e), (level - 1) as nat, vpn);
    }
}

/// A walk that finds a mapping meets no empty entry.
pub proof fn lemma_mapped_walk_aligned(mem: PageTableMemory, table: usize, level: nat, vpn: usize)
    requires
        spec_lookup(mem, table, level, vpn) is Some,
    ensures
        first_walk_aligned(mem, table, level, vpn),
    decreases level,
{
    if level > 0 {
        let e = mem.spec_entry(table, spec_pt_index(vpn, level as usize) as int);
        if e & PTE_LARGE == 0 {
            lemma_mapped_walk_aligned(mem, spec_pte_frame(e), (level - 1) as nat, vpn);
        }
    }
}

/// The pages of an empty entry's span map nowhere.
proof fn lemma_block_unmapped(m: PageTableMemory, table: usize, level: usize, v: int, hi: int)
    requires
        level < 4,
        0 <= v,
        v % spec_level_page_count(level as nat) as int == 0,
        hi <= v + spec_level_page_count(level as nat),
        !spec_pte_is_present(m.spec_entry(table, spec_pt_index(v as usize, level) as int)),
        v <= usize::MAX,
    ensures
        forall|vpn: usize| v <= vpn < hi ==> #[trigger] spec_lookup(m, table, level as nat, vpn) is None,
{
    let c = spec_level_page_count(level as nat) as int;
    lemma_level_sizes(level as nat);
    let q = v / c;
    vstd::arithmetic::div_mod::lemma_fundamental_div_mod(v, c);
    assert forall|vpn: usize| v <= vpn < hi implies #[trigger] spec_lookup(m, table, level as nat, vpn) is None by {
        lemma_in_block(vpn as int, q, c);
        lemma_in_block(v, q, c);
        lemma_same_index(vpn, v as usize, level);
    }
}

/// Pages that map nowhere still map nowhere after entries are cleared.
proof fn lemma_unmapped_kept(m0: PageTableMemory, m1: PageTableMemory, table: usize, level: nat, lo: int, hi: int)
    requires
        mem_updated(PteUpdate::Clear, m0, m1),
        forall|vpn: usize| lo <= vpn < hi ==> #[trigger] spec_lookup(m0, table, level, vpn) is None,
    ensures
        forall|vpn: usize| lo <= vpn < hi ==> #[trigger] spec_lookup(m1, table, level, vpn) is None,
{
    assert forall|vpn: usize| lo <= vpn < hi implies #[trigger] spec_lookup(m1, table, level, vpn) is None by {
        assert(spec_lookup(m0, table, level, vpn) is None);
        lemma_lookup_after_clear(m0, m1, table, level, vpn);
    }
}

/// Pages of the table below an entry that map nowhere through that table map nowhere through the
/// entry's table either, whether the entry still points there or was cleared.
proof fn lemma_child_unmapped(m: PageTableMemory, table: usize, level: usize, next: usize, v: int, hi: int)
    requires
        0 < level < 4,
        0 <= v <= hi <= spec_table_boundary(v, (level - 1) as nat),
        v <= usize::MAX,
        ({
            let e = m.spec_entry(table, spec_pt_index(v as usize, level) as int);
            e == 0 || (e & PTE_LARGE == 0 && spec_pte_frame(e) == next)
        }),
        forall|vpn: usize| v <= vpn < hi ==> #[trigger] spec_lookup(m, next, (level - 1) as nat, vpn) is None,
    ensures
        forall|vpn: usize| v <= vpn < hi ==> #[trigger] spec_lookup(m, table, level as nat, vpn) is None,
{
    let c = spec_level_page_count(level as nat) as int;
    lemma_level_sizes(level as nat);
    let q = v / c;
    vstd::arithmetic::div_mod::lemma_fundamental_div_mod(v, c);
    vstd::arithmetic::div_mod::lemma_mod_bound(v, c);
    assert(spec_level_span((level - 1) as nat) == c);
    assert(0u64 & 1u64 == 0) by (bit_vector);
    assert forall|vpn: usize| v <= vpn < hi implies #[trigger] spec_lookup(m, table, level as nat, vpn) is None by {
        assert(vpn < (q + 1) * c);
        assert((q + 1) * c == q * c + c) by (nonlinear_arith);
        assert(q * c <= v) by (nonlinear_arith)
            requires v == c * q + v % c, v % c >= 0;
        lemma_in_block(vpn as int, q, c);
        lemma_in_block(v, q, c);
        lemma_same_index(vpn, v as usize, level);
        assert(spec_lookup(m, next, (level - 1) as nat, vpn) is None);
    }
}

/// The entry that maps page `vpn` through the table in frame `table` at `level` of `mem`, or
/// `None` when an entry on the way is empty.
pub open spec fn spec_lookup_entry(mem: PageTableMemory, table: usize, level: nat, vpn: usize) -> Option<PageTableEntry>
    decreases level,
{
    let e = mem.spec_entry(table, spec_pt_index(vpn, level as usize) as int);
    if !spec_pte_is_present(e) {
        None
    } else if level == 0 || e & PTE_LARGE != 0 {
        Some(e)
    } else {
        spec_lookup_entry(mem, spec_pte_frame(e), (level - 1) as nat, vpn)
    }
}

/// Whether page `vpn` is mapped by the table in frame `table` at `level` of `mem`, with the
/// permissions `perms` and the cache mode `cache_mode`.
pub open spec fn mapped_as(
    mem: PageTableMemory,
    table: usize,
    level: nat,
    vpn: usize,
    perms: PageTablePerms,
    cache_mode: CacheMode,
) -> bool {
    match spec_lookup_entry(mem, table, level, vpn) {
        Some(e) => e & spec_perm_mask() == spec_perm_bits(perms) && e & (PTE_WRITE_THROUGH
            | PTE_CACHE_DISABLE) == spec_cache_bits(cache_mode),
        None => false,
    }
}

/// A page mapped through tables of `lv` stays mapped as it was while the present entries of `lv`
/// are kept.
proof fn lemma_mapped_as_kept(
    m0: PageTableMemory,
    m1: PageTableMemory,
    lv: Map<usize, nat>,
    table: usize,
    level: nat,
    vpn: usize,
)
    requires
        tables_leveled(m0, lv),
        present_entries_kept(m0, m1, lv),
        lv.contains_key(table),
        lv[table] == level,
        spec_lookup_entry(m0, table, level, vpn) is Some,
    ensures
        spec_lookup_entry(m1, table, level, vpn) == spec_lookup_entry(m0, table, level, vpn),
    decreases level,
{
    let i = spec_pt_index(vpn, level as usize) as int;
    lemma_index_bound(vpn, level as usize);
    let e = m0.spec_entry(table, i);
    assert(m1.spec_entry(table, i) == e);
    if level > 0 && e & PTE_LARGE == 0 {
        assert(lv[table] > 0);
        lemma_mapped_as_kept(m0, m1, lv, spec_pte_frame(e), (level - 1) as nat, vpn);
    }
}

/// Pages `lo..hi` mapped through tables of `lv` stay mapped as they were while the present entries
/// of `lv` are kept.
proof fn lemma_mapped_as_range_kept(
    m0: PageTableMemory,
    m1: PageTableMemory,
    lv: Map<usize, nat>,
    table: usize,
    level: nat,
    lo: int,
    hi: int,
    perms: PageTablePerms,
    cache_mode: CacheMode,
)
    requires
        tables_leveled(m0, lv),
        present_entries_kept(m0, m1, lv),
        lv.contains_key(table),
        lv[table] == level,
        forall|vpn: usize| lo <= vpn < hi ==> #[trigger] mapped_as(m0, table, level, vpn, perms, cache_mode),
    ensures
        forall|vpn: usize| lo <= vpn < hi ==> #[trigger] mapped_as(m1, table, level, vpn, perms, cache_mode),
{
    assert forall|vpn: usize| lo <= vpn < hi implies #[trigger] mapped_as(m1, table, level, vpn, perms, cache_mode) by {
        assert(mapped_as(m0, table, level, vpn, perms, cache_mode));
        lemma_mapped_as_kept(m0, m1, lv, table, level, vpn);
    }
}

/// The pages of an entry's span are all mapped through that entry, as it maps them.
proof fn lemma_block_mapped_as(
    m: PageTableMemory,
    table: usize,
    level: usize,
    v: int,
    hi: int,
    perms: PageTablePerms,
    cache_mode: CacheMode,
)
    requires
        level < 4,
        0 <= v <= usize::MAX,
        v % spec_level_page_count(level as nat) as int == 0,
        hi <= v + spec_level_page_count(level as nat),
        ({
            let e = m.spec_entry(table, spec_pt_index(v as usize, level) as int);
            &&& spec_pte_is_present(e)
            &&& spec_pte_is_terminal(e, level)
            &&& e & spec_perm_mask() == spec_perm_bits(perms)
            &&& e & (PTE_WRITE_THROUGH | PTE_CACHE_DISABLE) == spec_cache_bits(cache_mode)
        }),
    ensures
        forall|vpn: usize| v <= vpn < hi ==> #[trigger] mapped_as(m, table, level as nat, vpn, perms, cache_mode),
{
    let c = spec_level_page_count(level as nat) as int;
    lemma_level_sizes(level as nat);
    let q = v / c;
    vstd::arithmetic::div_mod::lemma_fundamental_div_mod(v, c);
    assert(v == q * c) by (nonlinear_arith)
        requires
            v == c * (v / c) + v % c,
            v % c == 0,
            q == v / c,
    ;
    assert forall|vpn: usize| v <= vpn < hi implies #[trigger] mapped_as(m, table, level as nat, vpn, perms, cache_mode) by {
        lemma_in_block(vpn as int, q, c);
        lemma_in_block(v, q, c);
        lemma_same_index(vpn, v as usize, level);
    }
}

/// Pages mapped through the table below an entry are mapped, as they are there, through the
/// entry's table.
proof fn lemma_child_mapped_as(
    m: PageTableMemory,
    table: usize,
    level: usize,
    next: usize,
    p0: MappingPointer,
    p1: MappingPointer,
    perms: PageTablePerms,
    cache_mode: CacheMode,
)
    requires
        0 < level < 4,
        0 <= p0.spec_virt() <= usize::MAX,
        p0.spec_virt() <= p1.spec_virt() <= spec_walk_limit(p0, (level - 1) as nat),
        ({
            let e = m.spec_entry(table, spec_pt_index(p0.spec_virt() as usize, level) as int);
            &&& spec_pte_is_present(e)
            &&& e & PTE_LARGE == 0
            &&& spec_pte_frame(e) == next
        }),
        forall|vpn: usize|
            p0.spec_virt() <= vpn < p1.spec_virt() ==> #[trigger] mapped_as(m, next, (level - 1) as nat, vpn, perms, cache_mode),
    ensures
        forall|vpn: usize|
            p0.spec_virt() <= vpn < p1.spec_virt() ==> #[trigger] mapped_as(m, table, level as nat, vpn, perms, cache_mode),
{
    let c = spec_level_page_count(level as nat) as int;
    let v = p0.spec_virt();
    lemma_level_sizes(level as nat);
    let q = v / c;
    vstd::arithmetic::div_mod::lemma_fundamental_div_mod(v, c);
    vstd::arithmetic::div_mod::lemma_mod_bound(v, c);
    assert(spec_level_span((level - 1) as nat) == c);
    assert forall|vpn: usize| p0.spec_virt() <= vpn < p1.spec_virt() implies #[trigger] mapped_as(
        m,
        table,
        level as nat,
        vpn,
        perms,
        cache_mode,
    ) by {
        assert(vpn < (q + 1) * c);
        assert((q + 1) * c == q * c + c) by (nonlinear_arith);
        assert(q * c <= v) by (nonlinear_arith)
            requires v == c * q + v % c, v % c >= 0;
        lemma_in_block(vpn as int, q, c);
        lemma_in_block(v, q, c);
        lemma_same_index(vpn, v as usize, level);
        assert(mapped_as(m, next, (level - 1) as nat, vpn, perms, cache_mode));
    }
}

/// Whether page `vpn`, where the table in frame `table` at `level` of `mem` maps it, has the
/// permissions `perms`.
pub open spec fn perms_ok(mem: PageTableMemory, table: usize, level: nat, vpn: usize, perms: PageTablePerms) -> bool {
    match spec_lookup_entry(mem, table, level, vpn) {
        Some(e) => e & spec_perm_mask() == spec_perm_bits(perms),
        None => true,
    }
}

/// Permissions set by a walk stay set while entries are only left alone or given the same
/// permissions.
proof fn lemma_perms_kept(m0: PageTableMemory, m1: PageTableMemory, perms: PageTablePerms, table: usize, level: nat, vpn: usize)
    requires
        mem_updated(PteUpdate::Protect(perms), m0, m1),
        perms_ok(m0, table, level, vpn, perms),
    ensures
        perms_ok(m1, table, level, vpn, perms),
    decreases level,
{
    let i = spec_pt_index(vpn, level as usize) as int;
    assert(entry_updated(PteUpdate::Protect(perms), m0.spec_entry(table, i), m1.spec_entry(table, i)));
    let e1 = m1.spec_entry(table, i);
    if spec_pte_is_present(e1) && !(level == 0 || e1 & PTE_LARGE != 0) {
        lemma_perms_kept(m0, m1, perms, spec_pte_frame(e1), (level - 1) as nat, vpn);
    }
}

/// A page with permissions `p1` has `p1` or `p2` after entries are left alone or given `p2`.
pub proof fn lemma_perms_after_protect(m0: PageTableMemory, m1: PageTableMemory, p1: PageTablePerms, p2: PageTablePerms, table: usize, level: nat, vpn: usize)
    requires
        mem_updated(PteUpdate::Protect(p2), m0, m1),
        perms_ok(m0, table, level, vpn, p1),
    ensures
        perms_ok(m1, table, level, vpn, p1) || perms_ok(m1, table, level, vpn, p2),
    decreases level,
{
    let i = spec_pt_index(vpn, level as usize) as int;
    assert(entry_updated(PteUpdate::Protect(p2), m0.spec_entry(table, i), m1.spec_entry(table, i)));
    let e1 = m1.spec_entry(table, i);
    if spec_pte_is_present(e1) && !(level == 0 || e1 & PTE_LARGE != 0) {
        lemma_perms_after_protect(m0, m1, p1, p2, spec_pte_frame(e1), (level - 1) as nat, vpn);
    }
}

/// Pages given `perms` keep them while entries are only left alone or given the same permissions.
proof fn lemma_perms_range_kept(m0: PageTableMemory, m1: PageTableMemory, perms: PageTablePerms, table: usize, level: nat, lo: int, hi: int)
    requires
        mem_updated(PteUpdate::Protect(perms), m0, m1),
        forall|vpn: usize| lo <= vpn < hi ==> #[trigger] perms_ok(m0, table, level, vpn, perms),
    ensures
        forall|vpn: usize| lo <= vpn < hi ==> #[trigger] perms_ok(m1, table, level, vpn, perms),
{
    assert forall|vpn: usize| lo <= vpn < hi implies #[trigger] perms_ok(m1, table, level, vpn, perms) by {
        assert(perms_ok(m0, table, level, vpn, perms));
        lemma_perms_kept(m0, m1, perms, table, level, vpn);
    }
}

/// The pages of an entry's span are all found through that entry: with no permissions where it
/// is empty, and with its own where it maps them.
proof fn lemma_block_perms(m: PageTableMemory, table: usize, level: usize, v: int, hi: int, perms: PageTablePerms)
    requires
        level < 4,
        0 <= v <= usize::MAX,
        v % spec_level_page_count(level as nat) as int == 0,
        hi <= v + spec_level_page_count(level as nat),
        ({
            let e = m.spec_entry(table, spec_pt_index(v as usize, level) as int);
            !spec_pte_is_present(e) || (spec_pte_is_terminal(e, level) && e & spec_perm_mask()
                == spec_perm_bits(perms))
        }),
    ensures
        forall|vpn: usize| v <= vpn < hi ==> #[trigger] perms_ok(m, table, level as nat, vpn, perms),
{
    let c = spec_level_page_count(level as nat) as int;
    lemma_level_sizes(level as nat);
    let q = v / c;
    vstd::arithmetic::div_mod::lemma_fundamental_div_mod(v, c);
    assert(v == q * c) by (nonlinear_arith)
        requires
            v == c * (v / c) + v % c,
            v % c == 0,
            q == v / c,
    ;
    assert forall|vpn: usize| v <= vpn < hi implies #[trigger] perms_ok(m, table, level as nat, vpn, perms) by {
        lemma_in_block(vpn as int, q, c);
        lemma_in_block(v, q, c);
        lemma_same_index(vpn, v as usize, level);
    }
}

/// Pages of the table below an entry that have `perms` there have them through the entry's table.
proof fn lemma_child_perms(m: PageTableMemory, table: usize, level: usize, next: usize, v: int, hi: int, perms: PageTablePerms)
    requires
        0 < level < 4,
        0 <= v <= hi <= spec_table_boundary(v, (level - 1) as nat),
        v <= usize::MAX,
        ({
            let e = m.spec_entry(table, spec_pt_index(v as usize, level) as int);
            !spec_pte_is_present(e) || (e & PTE_LARGE == 0 && spec_pte_frame(e) == next)
        }),
        forall|vpn: usize| v <= vpn < hi ==> #[trigger] perms_ok(m, next, (level - 1) as nat, vpn, perms),
    ensures
        forall|vpn: usize| v <= vpn < hi ==> #[trigger] perms_ok(m, table, level as nat, vpn, perms),
{
    let c = spec_level_page_count(level as nat) as int;
    lemma_level_sizes(level as nat);
    let q = v / c;
    vstd::arithmetic::div_mod::lemma_fundamental_div_mod(v, c);
    vstd::arithmetic::div_mod::lemma_mod_bound(v, c);
    assert(spec_level_span((level - 1) as nat) == c);
    assert forall|vpn: usize| v <= vpn < hi implies #[trigger] perms_ok(m, table, level as nat, vpn, perms) by {
        assert(vpn < (q + 1) * c);
        assert((q + 1) * c == q * c + c) by (nonlinear_arith);
        assert(q * c <= v) by (nonlinear_arith)
            requires v == c * q + v % c, v % c >= 0;
        lemma_in_block(vpn as int, q, c);
        lemma_in_block(v, q, c);
        lemma_same_index(vpn, v as usize, level);
        assert(perms_ok(m, next, (level - 1) as nat, vpn, perms));
    }
}

/// Changing permissions never changes which walks meet empty entries.
pub proof fn lemma_walk_aligned_after_protect(m0: PageTableMemory, m1: PageTableMemory, perms: PageTablePerms, table: usize, level: nat, vpn: usize)
    requires
        mem_updated(PteUpdate::Protect(perms), m0, m1),
        first_walk_aligned(m0, table, level, vpn),
    ensures
        first_walk_aligned(m1, table, level, vpn),
    decreases level,
{
    let i = spec_pt_index(vpn, level as usize) as int;
    assert(entry_updated(PteUpdate::Protect(perms), m0.spec_entry(table, i), m1.spec_entry(table, i)));
    let e1 = m1.spec_entry(table, i);
    if spec_pte_is_present(e1) && !(level == 0 || e1 & PTE_LARGE != 0) {
        lemma_walk_aligned_after_protect(m0, m1, perms, spec_pte_frame(e1), (level - 1) as nat, vpn);
    }
}

/// Whether page `vpn` is mapped through a last-level table in the walk down from the table in
/// frame `table` at `level` of `mem`.
pub open spec fn small_mapped(mem: PageTableMemory, table: usize, level: nat, vpn: usize) -> bool
    decreases level,
{
    let e = mem.spec_entry(table, spec_pt_index(vpn, level as usize) as int);
    if !spec_pte_is_present(e) {
        false
    } else if level == 0 {
        true
    } else if e & PTE_LARGE != 0 {
        false
    } else {
        small_mapped(mem, spec_pte_frame(e), (level - 1) as nat, vpn)
    }
}

/// Whether the walk for page `vpn` down from the table in frame `table` at `level` of `mem`, above
/// the last two levels, meets an entry that points to no table only where `vpn` is the first page
/// of that entry's span.
pub open spec fn cull_walk_aligned(mem: PageTableMemory, table: usize, level: nat, vpn: usize) -> bool
    decreases level,
{
    if level <= 1 {
        true
    } else {
        let e = mem.spec_entry(table, spec_pt_index(vpn, level as usize) as int);
        if !spec_pte_is_present(e) || e & PTE_LARGE != 0 {
            vpn as int % spec_level_page_count(level) as int == 0
        } else {
            cull_walk_aligned(mem, spec_pte_frame(e), (level - 1) as nat, vpn)
        }
    }
}

/// A walk from a page that starts an entry's span meets entries pointing to no table only at
/// such pages.
proof fn lemma_cull_aligned(mem: PageTableMemory, table: usize, level: nat, vpn: usize)
    requires
        level < 4,
        vpn as int % spec_level_page_count(level) as int == 0,
    ensures
        cull_walk_aligned(mem, table, level, vpn),
    decreases level,
{
    if level > 1 {
        lemma_level_sizes(level);
        lemma_level_sizes((level - 1) as nat);
        let c = spec_level_page_count((level - 1) as nat) as int;
        let k = vpn as int / spec_level_page_count(level) as int;
        vstd::arithmetic::div_mod::lemma_fundamental_div_mod(vpn as int, spec_level_page_count(level) as int);
        assert(vpn as int == (k * 512) * c) by (nonlinear_arith)
            requires vpn as int == spec_level_page_count(level) as int * k, spec_level_page_count(level) == 512 * c;
        vstd::arithmetic::div_mod::lemma_mod_multiples_basic(k * 512, c);
        let e = mem.spec_entry(table, spec_pt_index(vpn, level as usize) as int);
        lemma_cull_aligned(mem, spec_pte_frame(e), (level - 1) as nat, vpn);
    }
}

/// Pages not mapped through a last-level table are still not once entries are only cleared.
proof fn lemma_small_kept(m0: PageTableMemory, m1: PageTableMemory, table: usize, level: nat, vpn: usize)
    requires
        forall|t: usize, i: int|
            #![trigger m1.spec_entry(t, i)]
            m1.spec_entry(t, i) == m0.spec_entry(t, i) || m1.spec_entry(t, i) == 0,
        !small_mapped(m0, table, level, vpn),
    ensures
        !small_mapped(m1, table, level, vpn),
    decreases level,
{
    let i = spec_pt_index(vpn, level as usize) as int;
    assert(m1.spec_entry(table, i) == m0.spec_entry(table, i) || m1.spec_entry(table, i) == 0);
    assert(0u64 & 1u64 == 0) by (bit_vector);
    let e = m1.spec_entry(table, i);
    if spec_pte_is_present(e) && level > 0 && e & PTE_LARGE == 0 {
        lemma_small_kept(m0, m1, spec_pte_frame(e), (level - 1) as nat, vpn);
    }
}

/// A range of pages none of which is mapped through a last-level table stays so once entries are
/// only cleared.
proof fn lemma_small_range_kept(m0: PageTableMemory, m1: PageTableMemory, table: usize, level: nat, lo: int, hi: int)
    requires
        forall|t: usize, i: int|
            #![trigger m1.spec_entry(t, i)]
            m1.spec_entry(t, i) == m0.spec_entry(t, i) || m1.spec_entry(t, i) == 0,
        forall|vpn: usize| lo <= vpn < hi ==> !#[trigger] small_mapped(m0, table, level, vpn),
    ensures
        forall|vpn: usize| lo <= vpn < hi ==> !#[trigger] small_mapped(m1, table, level, vpn),
{
    assert forall|vpn: usize| lo <= vpn < hi implies !#[trigger] small_mapped(m1, table, level, vpn) by {
        assert(!small_mapped(m0, table, level, vpn));
        lemma_small_kept(m0, m1, table, level, vpn);
    }
}

/// The pages of an entry above the last level that points to no table are not mapped through a
/// last-level table.
proof fn lemma_block_not_small(m: PageTableMemory, table: usize, level: usize, v: int, hi: int)
    requires
        0 < level < 4,
        0 <= v <= usize::MAX,
        v % spec_level_page_count(level as nat) as int == 0,
        hi <= v + spec_level_page_count(level as nat),
        ({
            let e = m.spec_entry(table, spec_pt_index(v as usize, level) as int);
            !spec_pte_is_present(e) || e & PTE_LARGE != 0
        }),
    ensures
        forall|vpn: usize| v <= vpn < hi ==> !#[trigger] small_mapped(m, table, level as nat, vpn),
{
    let c = spec_level_page_count(level as nat) as int;
    lemma_level_sizes(level as nat);
    let q = v / c;
    vstd::arithmetic::div_mod::lemma_fundamental_div_mod(v, c);
    assert forall|vpn: usize| v <= vpn < hi implies !#[trigger] small_mapped(m, table, level as nat, vpn) by {
        lemma_in_block(vpn as int, q, c);
        lemma_in_block(v, q, c);
        lemma_same_index(vpn, v as usize, level);
    }
}

/// Pages not mapped through a last-level table below an entry are not mapped through one from the
/// entry's table either, whether the entry still points there or was cleared.
proof fn lemma_child_not_small(m: PageTableMemory, table: usize, level: usize, next: usize, v: int, hi: int)
    requires
        0 < level < 4,
        0 <= v <= hi <= spec_table_boundary(v, (level - 1) as nat),
        v <= usize::MAX,
        ({
            let e = m.spec_entry(table, spec_pt_index(v as usize, level) as int);
            e == 0 || (e & PTE_LARGE == 0 && spec_pte_frame(e) == next)
        }),
        forall|vpn: usize| v <= vpn < hi ==> !#[trigger] small_mapped(m, next, (level - 1) as nat, vpn),
    ensures
        forall|vpn: usize| v <= vpn < hi ==> !#[trigger] small_mapped(m, table, level as nat, vpn),
{
    let c = spec_level_page_count(level as nat) as int;
    lemma_level_sizes(level as nat);
    let q = v / c;
    vstd::arithmetic::div_mod::lemma_fundamental_div_mod(v, c);
    vstd::arithmetic::div_mod::lemma_mod_bound(v, c);
    assert(spec_level_span((level - 1) as nat) == c);
    assert(0u64 & 1u64 == 0) by (bit_vector);
    assert forall|vpn: usize| v <= vpn < hi implies !#[trigger] small_mapped(m, table, level as nat, vpn) by {
        assert(vpn < (q + 1) * c);
        assert((q + 1) * c == q * c + c) by (nonlinear_arith);
        assert(q * c <= v) by (nonlinear_arith)
            requires v == c * q + v % c, v % c >= 0;
        lemma_in_block(vpn as int, q, c);
        lemma_in_block(v, q, c);
        lemma_same_index(vpn, v as usize, level);
        assert(!small_mapped(m, next, (level - 1) as nat, vpn));
    }
}

/// Clearing entries never maps a page anew nor moves a mapping: each page maps as before, or not
/// at all.
pub proof fn lemma_lookup_after_clear(
    old: PageTableMemory,
    new: PageTableMemory,
    table: usize,
    level: nat,
    vpn: usize,
)
    requires
        mem_updated(PteUpdate::Clear, old, new),
    ensures
        spec_lookup(new, table, level, vpn) is None || spec_lookup(new, table, level, vpn) == spec_lookup(
            old,
            table,
            level,
            vpn,
        ),
    decreases level,
{
    let i = spec_pt_index(vpn, level as usize) as int;
    assert(entry_updated(PteUpdate::Clear, old.spec_entry(table, i), new.spec_entry(table, i)));
    assert(0u64 & 1u64 == 0) by (bit_vector);
    if level > 0 {
        lemma_lookup_after_clear(old, new, spec_pte_frame(new.spec_entry(table, i)), (level - 1) as nat, vpn);
    }
}

/// A memory whose entries are those of `old` or empty is a clearing update of `old`.
pub proof fn lemma_cleared_is_update(old: PageTableMemory, new: PageTableMemory)
    requires
        forall|t: usize, i: int|
            #![trigger new.spec_entry(t, i)]
            new.spec_entry(t, i) == old.spec_entry(t, i) || new.spec_entry(t, i) == 0,
    ensures
        mem_updated(PteUpdate::Clear, old, new),
{
    assert forall|t: usize, i: int| #[trigger] entry_updated(PteUpdate::Clear, old.spec_entry(t, i), new.spec_entry(t, i)) by {
        assert(new.spec_entry(t, i) == old.spec_entry(t, i) || new.spec_entry(t, i) == 0);
    }
}

/// Changing permissions never changes where pages map.
pub proof fn lemma_lookup_after_protect(
    perms: PageTablePerms,
    old: PageTableMemory,
    new: PageTableMemory,
    table: usize,
    level: nat,
    vpn: usize,
)
    requires
        mem_updated(PteUpdate::Protect(perms), old, new),
    ensures
        spec_lookup(new, table, level, vpn) == spec_lookup(old, table, level, vpn),
    decreases level,
{
    let i = spec_pt_index(vpn, level as usize) as int;
    assert(entry_updated(PteUpdate::Protect(perms), old.spec_entry(table, i), new.spec_entry(table, i)));
    if level > 0 {
        lemma_lookup_after_protect(perms, old, new, spec_pte_frame(new.spec_entry(table, i)), (level - 1) as nat, vpn);
    }
}

/// Applies `update` to `pte`, an entry at `level`.
fn apply_update(update: PteUpdate, pte: PageTableEntry, level: usize) -> (r: PageTableEntry)
    ensures
        spec_update_result(update, pte, r, level),
{
    match update {
        PteUpdate::Clear => make_empty_pte(),
        PteUpdate::Protect(perms) => {
            let r = update_pte_perms(pte, level, perms);
            proof {
                lemma_perm_bits_masked(perms);
                let p = spec_perm_bits(perms);
                assert(p & 0x8000_0000_0000_0106u64 == p ==> ((pte & !(2u64 | 4u64 | 0x100u64
                    | 0x8000_0000_0000_0000u64)) | p) & 0x8000_0000_0000_0106u64 == p) by (bit_vector);
            }
            r
        },
    }
}

/// The bits of an entry that permissions set.
pub open spec fn spec_perm_mask() -> u64 {
    PTE_WRITE | PTE_USER | PTE_GLOBAL | PTE_NO_EXEC
}

/// The bits granting permissions lie within the permission bits.
proof fn lemma_perm_bits_masked(perms: PageTablePerms)
    ensures
        spec_perm_bits(perms) & spec_perm_mask() == spec_perm_bits(perms),
        spec_perm_mask() == 0x8000_0000_0000_0106u64,
{
    let w = if perms@ & PERMS_WRITE == PERMS_WRITE { 2u64 } else { 0u64 };
    let u = if perms@ & PERMS_USER == PERMS_USER { 4u64 } else { 0u64 };
    let g = if perms@ & PERMS_GLOBAL == PERMS_GLOBAL { 0x100u64 } else { 0u64 };
    let x = if perms@ & PERMS_EXECUTE == PERMS_EXECUTE { 0u64 } else { 0x8000_0000_0000_0000u64 };
    assert(spec_perm_bits(perms) == w | u | g | x);
    assert((w == 0 || w == 2) && (u == 0 || u == 4) && (g == 0 || g == 0x100) && (x == 0 || x
        == 0x8000_0000_0000_0000u64) ==> (w | u | g | x) & 0x8000_0000_0000_0106u64 == (w | u | g | x))
        by (bit_vector);
    assert((2u64 | 4u64 | 0x100u64 | 0x8000_0000_0000_0000u64) == 0x8000_0000_0000_0106u64) by (bit_vector);
}

} // verus!
