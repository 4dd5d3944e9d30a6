//! The kernel heap: a slab allocator with fixed size classes for small objects, backed by blocks
//! of frames from the frame allocator, accessed through the physmap.
use vstd::prelude::*;
use vstd::arithmetic::power2::pow2;
use std::collections::HashMap;
use crate::arch::{spec_phys_map_base, spec_phys_map_max_pages, PAGE_SIZE};
use crate::bitmap::{bytes_required, Bitmap};
use crate::num_utils::{align_down, align_up, log2_ceil, spec_log2};
use super::physmap::{pfn_to_physmap, physmap_to_pfn};
use super::pmm::{spec_first_nonempty, PhysManager};
use super::types::{Layout, PhysFrameNum, VirtAddr};
use super::utils::to_page_count;

verus! {

/// Reported when the heap cannot satisfy an allocation.
#[derive(Clone, Copy, Debug, PartialEq, Eq, Structural)]
pub struct HeapAllocError;

/// The size of the header at the start of every slab: a list link (two pointers) and the count of
/// allocated objects.
pub const SLAB_HEADER_SIZE: usize = 24;

/// The number of bytes actually reserved for an allocation with `layout`: its size rounded up to
/// its alignment, so that every object of a size class is suitably aligned.
pub fn get_effective_size(layout: Layout) -> (r: usize)
    requires
        layout.wf(),
        layout.spec_size() + layout.spec_align() <= usize::MAX,
    ensures
        r == ((layout.spec_size() + layout.spec_align() - 1) / layout.spec_align() as int)
            * layout.spec_align(),
        r >= layout.spec_size(),
        r < layout.spec_size() + layout.spec_align(),
        r % layout.spec_align() == 0,
{
    proof {
        layout.lemma_wf();
    }
    align_up(layout.size(), layout.align())
}

/// The order of the block of frames that holds `bytes` bytes: the smallest `order` with
/// `bytes <= PAGE_SIZE << order`.
pub fn raw_page_order(bytes: usize) -> (r: usize)
    requires
        bytes + PAGE_SIZE <= usize::MAX,
    ensures
        r == spec_raw_page_order(bytes),
        bytes <= pow2(r as nat) * PAGE_SIZE,
        r > 0 ==> pow2((r - 1) as nat) * PAGE_SIZE < bytes,
{
    let pages = to_page_count(bytes);
    proof {
        assert(pages * 4096 >= bytes && (pages == 0 || (pages - 1) * 4096 < bytes)) by (nonlinear_arith)
            requires
                pages == (bytes + 4095) / 4096int,
        ;
    }
    let r = log2_ceil(pages);
    proof {
        if pages <= 1 {
            vstd::arithmetic::power2::lemma2_to64();
        } else {
            assert(pow2(r as nat) * 4096 >= pages * 4096) by (nonlinear_arith)
                requires
                    pages <= pow2(r as nat),
            ;
            assert(pow2((r - 1) as nat) * 4096 < bytes) by (nonlinear_arith)
                requires
                    pow2((r - 1) as nat) < pages,
                    (pages - 1) * 4096 < bytes,
            ;
        }
    }
    r
}

/// The order of the block of frames that holds `bytes` bytes.
pub open spec fn spec_raw_page_order(bytes: usize) -> usize {
    let pages = (bytes + PAGE_SIZE - 1) / PAGE_SIZE as int;
    if pages <= 1 {
        0
    } else {
        (spec_log2((pages - 1) as nat) + 1) as usize
    }
}

/// The number of bytes in a slab of `order`.
pub open spec fn slab_bytes(order: usize) -> int {
    pow2(order as nat) * PAGE_SIZE
}

/// Whether a slab of `order` holds its header, the bitmap for `count` objects and `count` objects
/// of `size` bytes.
pub open spec fn slab_fits(size: usize, order: usize, count: int) -> bool {
    SLAB_HEADER_SIZE + (count + 7) / 8 + count * size <= slab_bytes(order)
}

/// Slabs of the supported orders span one to eight pages.
proof fn lemma_slab_bytes_bound(order: usize)
    requires
        order <= 3,
    ensures
        4096 <= slab_bytes(order) <= 32768,
{
    vstd::arithmetic::power2::lemma2_to64();
}

/// The layout of the slabs of one size class.
#[derive(Clone, Copy)]
pub struct SizeClassMeta {
    size: usize,
    slab_order: usize,
    objects_per_slab: usize,
}

impl SizeClassMeta {
    /// The size of the objects.
    pub closed spec fn spec_size(&self) -> usize {
        self.size
    }

    /// The order of the blocks of frames holding the slabs.
    pub closed spec fn spec_slab_order(&self) -> usize {
        self.slab_order
    }

    /// The number of objects in a slab.
    pub closed spec fn spec_objects_per_slab(&self) -> usize {
        self.objects_per_slab
    }

    /// The offset of the first object from the start of its slab: the objects are packed at the
    /// end of the slab.
    pub open spec fn spec_first_object_offset(&self) -> int {
        slab_bytes(self.spec_slab_order()) - self.spec_size() * self.spec_objects_per_slab()
    }

    /// A slab holds at least one object, and its header, bitmap and objects fit in it.
    pub open spec fn wf(&self) -> bool {
        &&& self.spec_size() > 0
        &&& self.spec_slab_order() <= 3
        &&& self.spec_objects_per_slab() >= 1
        &&& slab_fits(self.spec_size(), self.spec_slab_order(), self.spec_objects_per_slab() as int)
    }

    /// Lays out slabs of `2 ** slab_order` pages for objects of `size` bytes, holding as many
    /// objects as fit after the header and the bitmap.
    pub fn new(size: usize, slab_order: usize) -> (r: Self)
        requires
            size > 0,
            slab_order <= 3,
        ensures
            r.spec_size() == size,
            r.spec_slab_order() == slab_order,
            slab_fits(size, slab_order, r.spec_objects_per_slab() as int),
            forall|n: int|
                r.spec_objects_per_slab() < n ==> !#[trigger] slab_fits(size, slab_order, n),
    {
        proof {
            vstd::arithmetic::power2::lemma2_to64();
        }
        let slab_size: usize = PAGE_SIZE << slab_order;
        proof {
            vstd::bits::lemma_usize_shl_is_mul(4096, slab_order);
            assert(slab_size == slab_bytes(slab_order)) by {
                vstd::arithmetic::mul::lemma_mul_is_commutative(4096, pow2(slab_order as nat) as int);
            }
        }
        let mut objects_per_slab: usize = (slab_size - SLAB_HEADER_SIZE) / size;
        proof {
            assert(objects_per_slab * size <= slab_size - 24) by (nonlinear_arith)
                requires
                    objects_per_slab == (slab_size - 24) / size as int,
                    size > 0,
            ;
            assert(objects_per_slab <= 32768) by (nonlinear_arith)
                requires
                    objects_per_slab * size <= slab_size - 24,
                    slab_size <= 32768,
                    size > 0,
            ;
            assert forall|n: int| objects_per_slab < n implies !#[trigger] slab_fits(size, slab_order, n) by {
                assert(n * size > slab_size - 24) by (nonlinear_arith)
                    requires
                        objects_per_slab == (slab_size - 24) / size as int,
                        size > 0,
                        objects_per_slab < n,
                ;
            }
        }
        while SLAB_HEADER_SIZE + bytes_required(objects_per_slab) + objects_per_slab * size > slab_size
            invariant
                slab_size == slab_bytes(slab_order),
                slab_size >= 4096,
                slab_size <= 32768,
                size > 0,
                objects_per_slab * size <= slab_size - 24,
                objects_per_slab <= 32768,
                forall|n: int| objects_per_slab < n ==> !#[trigger] slab_fits(size, slab_order, n),
            decreases objects_per_slab,
        {
            proof {
                if objects_per_slab == 0 {
                    assert(false);
                }
                assert(!slab_fits(size, slab_order, objects_per_slab as int));
                assert((objects_per_slab - 1) * size <= objects_per_slab * size) by (nonlinear_arith)
                    requires
                        objects_per_slab >= 1,
                ;
            }
            objects_per_slab = objects_per_slab - 1;
        }
        Self { size, slab_order, objects_per_slab }
    }

    /// The offset of the first object from the start of its slab.
    pub fn first_object_offset(&self) -> (r: usize)
        requires
            self.wf(),
        ensures
            r == self.spec_first_object_offset(),
            r >= SLAB_HEADER_SIZE + (self.spec_objects_per_slab() + 7) / 8,
    {
        proof {
            vstd::arithmetic::power2::lemma2_to64();
            vstd::bits::lemma_usize_shl_is_mul(4096, self.slab_order);
            vstd::arithmetic::mul::lemma_mul_is_commutative(4096, pow2(self.slab_order as nat) as int);
            vstd::arithmetic::mul::lemma_mul_is_commutative(self.size as int, self.objects_per_slab as int);
        }
        (PAGE_SIZE << self.slab_order) - self.size * self.objects_per_slab
    }

    /// The number of bytes of a slab's bitmap.
    pub fn bitmap_bytes(&self) -> (r: usize)
        requires
            self.wf(),
        ensures
            r == (self.spec_objects_per_slab() + 7) / 8,
    {
        proof {
            lemma_slab_bytes_bound(self.slab_order);
            assert(self.objects_per_slab <= 32768) by (nonlinear_arith)
                requires
                    self.objects_per_slab * self.size <= 32768,
                    self.size > 0,
            ;
        }
        bytes_required(self.objects_per_slab)
    }
}

/// The number of set bits among the first `n` bits of `bits`.
pub open spec fn count_set(bits: Seq<bool>, n: int) -> int
    decreases n,
{
    if n <= 0 {
        0
    } else {
        count_set(bits, n - 1) + if bits[n - 1] {
            1int
        } else {
            0
        }
    }
}

/// Changing one bit below `n` changes the count by at most one, in the way expected.
proof fn lemma_count_update(bits: Seq<bool>, n: int, i: int, v: bool)
    requires
        0 <= i < n <= bits.len(),
    ensures
        count_set(bits.update(i, v), n) == count_set(bits, n) - (if bits[i] {
            1int
        } else {
            0
        }) + (if v {
            1int
        } else {
            0
        }),
    decreases n,
{
    if n - 1 > i {
        lemma_count_update(bits, n - 1, i, v);
    } else {
        lemma_count_prefix_eq(bits, bits.update(i, v), n - 1);
    }
}

/// Counts of sequences that agree below `n` are equal.
proof fn lemma_count_prefix_eq(a: Seq<bool>, b: Seq<bool>, n: int)
    requires
        n <= a.len(),
        n <= b.len(),
        forall|j: int| 0 <= j < n ==> a[j] == b[j],
    ensures
        count_set(a, n) == count_set(b, n),
    decreases n,
{
    if n > 0 {
        lemma_count_prefix_eq(a, b, n - 1);
    }
}

/// When every bit below `n` is set, the count is `n`.
proof fn lemma_count_all_set(bits: Seq<bool>, n: int)
    requires
        0 <= n <= bits.len(),
        forall|j: int| 0 <= j < n ==> bits[j],
    ensures
        count_set(bits, n) == n,
    decreases n,
{
    if n > 0 {
        lemma_count_all_set(bits, n - 1);
    }
}

/// When no bit below `n` is set, the count is zero.
proof fn lemma_count_none_set(bits: Seq<bool>, n: int)
    requires
        0 <= n <= bits.len(),
        forall|j: int| 0 <= j < n ==> !bits[j],
    ensures
        count_set(bits, n) == 0,
    decreases n,
{
    if n > 0 {
        lemma_count_none_set(bits, n - 1);
    }
}

/// The physmap address of frame `pfn`.
pub open spec fn physmap_addr(pfn: int) -> int {
    (spec_phys_map_base() + pfn) * PAGE_SIZE
}

/// Whether the physmap addresses of every frame that `pmm` manages fit in the address space, with
/// the physmap base aligned for the largest block.
pub open spec fn physmap_fits(pmm: PhysManager) -> bool {
    &&& usize::BITS == 64
    &&& pmm.spec_max_pfn() <= spec_phys_map_max_pages()
    &&& spec_phys_map_base() + spec_phys_map_max_pages() + 16 <= 0xf_ffff_ffff_ffff
}

/// The first frame of the block that `pmm` hands out next for a request of `order`.
pub open spec fn next_block(pmm: PhysManager, order: usize) -> PhysFrameNum {
    pmm.spec_lists()[spec_first_nonempty(pmm.spec_lists(), order as nat) as int].last()
}

/// Whether `pmm` has a block for a request of `order`.
pub open spec fn has_block(pmm: PhysManager, order: usize) -> bool {
    !(order >= 16 || spec_first_nonempty(pmm.spec_lists(), order as nat) == 16)
}

/// Allocates a block of `2 ** order` frames from `pmm` and returns its address in the physmap.
pub fn alloc_virt_pages(pmm: &mut PhysManager, order: usize) -> (r: Option<usize>)
    requires
        old(pmm).wf(),
        old(pmm).split_in_range(order as nat),
        physmap_fits(*old(pmm)),
    ensures
        final(pmm).wf(),
        final(pmm).spec_max_pfn() == old(pmm).spec_max_pfn(),
        final(pmm).spec_total_pages() == old(pmm).spec_total_pages(),
        r is Some <==> has_block(*old(pmm), order),
        r matches Some(addr) ==> {
            &&& addr == physmap_addr(next_block(*old(pmm), order)@ as int)
            &&& next_block(*old(pmm), order)@ as int % pow2(order as nat) as int == 0
            &&& next_block(*old(pmm), order)@ < old(pmm).spec_max_pfn()
            &&& final(pmm).spec_free_pages() + pow2(order as nat) == old(pmm).spec_free_pages()
        },
{
    let pfn = pmm.allocate(order)?;
    proof {
        assert((spec_phys_map_base() + pfn@ + 1) * 4096 <= usize::MAX) by (nonlinear_arith)
            requires
                spec_phys_map_base() + pfn@ + 1 <= 0xf_ffff_ffff_ffff,
                usize::BITS == 64,
                usize::MAX == 0xffff_ffff_ffff_ffff,
        ;
    }
    let vpn = pfn_to_physmap(pfn);
    Some(vpn.addr().as_usize())
}

/// Gives the block of `2 ** order` frames at physmap address `addr` back to `pmm`.
pub fn free_virt_pages(pmm: &mut PhysManager, addr: usize, order: usize)
    requires
        old(pmm).wf(),
        order < 16,
        physmap_fits(*old(pmm)),
        exists|pfn: int|
            0 <= pfn < old(pmm).spec_max_pfn() && pfn % pow2(order as nat) as int == 0 && addr
                == #[trigger] physmap_addr(pfn),
    ensures
        final(pmm).wf(),
        final(pmm).spec_max_pfn() == old(pmm).spec_max_pfn(),
        final(pmm).spec_total_pages() == old(pmm).spec_total_pages(),
        final(pmm).spec_free_pages() >= old(pmm).spec_free_pages() + pow2(order as nat),
{
    let ghost pfn = choose|pfn: int|
        0 <= pfn < old(pmm).spec_max_pfn() && pfn % pow2(order as nat) as int == 0 && addr
            == #[trigger] physmap_addr(pfn);
    let vaddr = VirtAddr::new(addr);
    proof {
        assert(addr % 4096 == 0 && addr / 4096 == spec_phys_map_base() + pfn) by (nonlinear_arith)
            requires
                addr == (spec_phys_map_base() + pfn) * 4096,
        ;
    }
    let frame = physmap_to_pfn(vaddr.containing_page());
    proof {
        vstd::arithmetic::power2::lemma_pow2_pos(order as nat);
    }
    pmm.deallocate(frame, order);
}

/// When no bit below `n` is counted, none is set.
proof fn lemma_count_zero(bits: Seq<bool>, n: int)
    requires
        0 <= n <= bits.len(),
        count_set(bits, n) == 0,
    ensures
        forall|j: int| 0 <= j < n ==> !bits[j],
    decreases n,
{
    if n > 0 {
        lemma_count_nonneg(bits, n - 1);
        lemma_count_zero(bits, n - 1);
    }
}

/// Counts are never negative.
proof fn lemma_count_nonneg(bits: Seq<bool>, n: int)
    ensures
        count_set(bits, n) >= 0,
    decreases n,
{
    if n > 0 {
        lemma_count_nonneg(bits, n - 1);
    }
}

/// The header and bitmap kept at the start of a slab: the number of objects handed out, and one
/// bit per object, set while the object is handed out.
pub struct SlabHeader {
    allocated: usize,
    bitmap: Bitmap,
}

impl SlabHeader {
    /// The number of objects handed out.
    pub closed spec fn spec_allocated(&self) -> usize {
        self.allocated
    }

    /// The object bits.
    pub closed spec fn spec_bits(&self) -> Seq<bool> {
        self.bitmap@
    }
}

/// The address of object `index` of the slab in the block starting at frame `pfn`.
pub open spec fn obj_addr(meta: SizeClassMeta, pfn: int, index: int) -> int {
    physmap_addr(pfn) + meta.spec_first_object_offset() + index * meta.spec_size()
}

/// The slabs of one size class. Each slab is a block of frames, accessed through the physmap,
/// that starts with a [`SlabHeader`]. The slabs with free objects are kept on a list, most recently
/// added last.
pub struct SizeClassInner {
    partial_slabs: Vec<usize>,
    slabs: HashMap<usize, SlabHeader>,
}

impl SizeClassInner {
    /// The slabs, by first frame.
    pub closed spec fn spec_slabs(&self) -> Map<usize, SlabHeader> {
        self.slabs@
    }

    /// The slabs with free objects, by first frame, most recently added last.
    pub closed spec fn spec_partial(&self) -> Seq<usize> {
        self.partial_slabs@
    }

    /// Whether object `index` of the slab at frame `pfn` is handed out.
    pub open spec fn is_object(&self, meta: SizeClassMeta, pfn: usize, index: int) -> bool {
        &&& self.spec_slabs().contains_key(pfn)
        &&& 0 <= index < meta.spec_objects_per_slab()
        &&& self.spec_slabs()[pfn].spec_bits()[index]
    }

    /// Whether `header` describes a valid slab of `meta` at frame `pfn` below frame `limit`: its
    /// bitmap covers every object, its count matches the bits set, and its block is aligned.
    pub open spec fn slab_ok(meta: SizeClassMeta, limit: usize, pfn: usize, header: SlabHeader) -> bool {
        &&& header.spec_bits().len() == 8 * ((meta.spec_objects_per_slab() + 7) / 8)
        &&& count_set(header.spec_bits(), meta.spec_objects_per_slab() as int)
            == header.spec_allocated()
        &&& 1 <= header.spec_allocated() <= meta.spec_objects_per_slab()
        &&& pfn as int % pow2(meta.spec_slab_order() as nat) as int == 0
        &&& pfn < limit
    }

    /// The slab list holds exactly the slabs with free objects, each once, and every slab is valid.
    pub open spec fn wf(&self, meta: SizeClassMeta, limit: usize) -> bool {
        &&& meta.wf()
        &&& forall|pfn: usize|
            #[trigger] self.spec_slabs().contains_key(pfn) ==> Self::slab_ok(
                meta,
                limit,
                pfn,
                self.spec_slabs()[pfn],
            )
        &&& self.spec_partial().no_duplicates()
        &&& forall|k: int|
            0 <= k < self.spec_partial().len() ==> self.spec_slabs().contains_key(
                #[trigger] self.spec_partial()[k],
            ) && self.spec_slabs()[self.spec_partial()[k]].spec_allocated()
                < meta.spec_objects_per_slab()
        &&& forall|pfn: usize|
            #[trigger] self.spec_slabs().contains_key(pfn) && self.spec_slabs()[pfn].spec_allocated()
                < meta.spec_objects_per_slab() ==> self.spec_partial().contains(pfn)
    }

    /// Creates a size class with no slabs.
    pub fn new() -> (r: Self)
        ensures
            r.spec_slabs().is_empty(),
            r.spec_partial().len() == 0,
            forall|meta: SizeClassMeta, limit: usize| meta.wf() ==> r.wf(meta, limit),
    {
        Self { partial_slabs: Vec::new(), slabs: HashMap::new() }
    }

    /// Takes the most recently added slab with free objects off the list.
    fn take_partial_slab(&mut self) -> (r: Option<usize>)
        ensures
            old(self).spec_partial().len() == 0 ==> r is None && final(self).spec_partial()
                == old(self).spec_partial(),
            old(self).spec_partial().len() > 0 ==> r == Some(old(self).spec_partial().last())
                && final(self).spec_partial() == old(self).spec_partial().drop_last(),
            final(self).spec_slabs() == old(self).spec_slabs(),
    {
        self.partial_slabs.pop()
    }

    /// Allocates a new slab from `pmm`: a block of frames, with a header counting no object and a
    /// clear bitmap. Returns its first frame and its header.
    fn alloc_slab(&mut self, meta: &SizeClassMeta, pmm: &mut PhysManager) -> (r: Option<
        (usize, SlabHeader),
    >)
        requires
            meta.wf(),
            old(pmm).wf(),
            old(pmm).split_in_range(meta.spec_slab_order() as nat),
            physmap_fits(*old(pmm)),
        ensures
            *final(self) == *old(self),
            final(pmm).wf(),
            final(pmm).spec_max_pfn() == old(pmm).spec_max_pfn(),
            final(pmm).spec_total_pages() == old(pmm).spec_total_pages(),
            r is Some <==> has_block(*old(pmm), meta.spec_slab_order()),
            r matches Some((pfn, header)) ==> {
                &&& pfn == next_block(*old(pmm), meta.spec_slab_order())@
                &&& pfn as int % pow2(meta.spec_slab_order() as nat) as int == 0
                &&& pfn < old(pmm).spec_max_pfn()
                &&& header.spec_allocated() == 0
                &&& header.spec_bits().len() == 8 * ((meta.spec_objects_per_slab() + 7) / 8)
                &&& forall|j: int| 0 <= j < header.spec_bits().len() ==> !header.spec_bits()[j]
                &&& final(pmm).spec_free_pages() + pow2(meta.spec_slab_order() as nat) == old(pmm).spec_free_pages()
            },
    {
        let bitmap_bytes = meta.bitmap_bytes();
        let addr = alloc_virt_pages(pmm, meta.slab_order)?;
        let pfn = next_frame_of(addr);
        proof {
            let p = next_block(*old(pmm), meta.spec_slab_order())@;
            assert(addr / 4096 == spec_phys_map_base() + p) by (nonlinear_arith)
                requires
                    addr == (spec_phys_map_base() + p) * 4096,
            ;
        }
        Some((pfn, SlabHeader { allocated: 0, bitmap: Bitmap::zeroed(bitmap_bytes) }))
    }

    /// Hands out a free object, taking it from the most recently added slab with free objects, or
    /// from a new slab when there is none, and returns its address.
    ///
    /// Errors: `HeapAllocError` when there is no slab with free objects and `pmm` has no block for
    /// a new one.
    pub fn allocate(&mut self, meta: &SizeClassMeta, pmm: &mut PhysManager) -> (r: core::result::Result<
        usize,
        HeapAllocError,
    >)
        requires
            old(self).wf(*meta, old(pmm).spec_max_pfn()),
            old(pmm).wf(),
            old(pmm).split_in_range(meta.spec_slab_order() as nat),
            physmap_fits(*old(pmm)),
            old(self).spec_partial().len() == 0 && has_block(*old(pmm), meta.spec_slab_order())
                ==> !old(self).spec_slabs().contains_key(
                next_block(*old(pmm), meta.spec_slab_order())@,
            ),
        ensures
            final(self).wf(*meta, final(pmm).spec_max_pfn()),
            final(pmm).wf(),
            final(pmm).spec_max_pfn() == old(pmm).spec_max_pfn(),
            final(pmm).spec_total_pages() == old(pmm).spec_total_pages(),
            r is Err <==> old(self).spec_partial().len() == 0 && !has_block(
                *old(pmm),
                meta.spec_slab_order(),
            ),
            r matches Ok(addr) ==> exists|pfn: usize, index: int|
                {
                    &&& addr == #[trigger] obj_addr(*meta, pfn as int, index)
                    &&& !old(self).is_object(*meta, pfn, index)
                    &&& final(self).is_object(*meta, pfn, index)
                    &&& forall|p: usize, j: int|
                        (p != pfn || j != index) ==> final(self).is_object(*meta, p, j) == old(self).is_object(*meta, p, j)
                    &&& old(self).spec_partial().len() > 0 ==> pfn == old(self).spec_partial().last()
                    &&& old(self).spec_partial().len() == 0 ==> pfn == next_block(
                        *old(pmm),
                        meta.spec_slab_order(),
                    )@
                },
    {
        let ops = meta.objects_per_slab;
        let ghost slabs0 = self.slabs@;
        let (pfn, mut header) = match self.take_partial_slab() {
            Some(pfn) => {
                let header = match self.slabs.remove(&pfn) {
                    Some(h) => h,
                    None => {
                        proof {
                            assert(self.spec_partial().len() + 1 == old(self).spec_partial().len());
                            assert(old(self).spec_partial()[old(self).spec_partial().len() - 1] == pfn);
                        }
                        return Err(HeapAllocError);
                    },
                };
                (pfn, header)
            },
            None => match self.alloc_slab(meta, pmm) {
                Some(slab) => slab,
                None => {
                    return Err(HeapAllocError);
                },
            },
        };
        let ghost from_list = old(self).spec_partial().len() > 0;
        proof {
            if from_list {
                let k = old(self).spec_partial().len() - 1;
                assert(old(self).spec_partial()[k] == pfn);
                assert(slabs0.contains_key(pfn));
                assert(header == slabs0[pfn]);
                assert(Self::slab_ok(*meta, old(pmm).spec_max_pfn(), pfn, slabs0[pfn]));
                assert(header.spec_allocated() < ops);
            } else {
                lemma_count_none_set(header.spec_bits(), ops as int);
            }
            assert(header.allocated < ops);
            assert(count_set(header.bitmap@, ops as int) == header.allocated);
            if forall|j: int| 0 <= j < ops ==> header.bitmap@[j] {
                lemma_count_all_set(header.bitmap@, ops as int);
            }
            assert(ops <= 8 * ((ops + 7) / 8));
        }
        let next_allocated = header.allocated + 1;
        header.allocated = next_allocated;
        let ghost partial_mid = self.partial_slabs@;
        if next_allocated < ops {
            self.partial_slabs.push(pfn);
        }
        let index = match header.bitmap.first_zero(ops) {
            Some(i) => i,
            None => {
                proof {
                    assert(false);
                }
                return Err(HeapAllocError);
            },
        };
        let ghost bits0 = header.bitmap@;
        header.bitmap.set(index);
        proof {
            lemma_count_update(bits0, ops as int, index as int, true);
        }
        self.slabs.insert(pfn, header);
        proof {
            let meta0 = *meta;
            let limit = pmm.spec_max_pfn();
            assert(Self::slab_ok(meta0, limit, pfn, header));
            assert forall|p: usize| #[trigger] self.spec_slabs().contains_key(p) implies Self::slab_ok(
                meta0,
                limit,
                p,
                self.spec_slabs()[p],
            ) by {
                if p != pfn {
                    assert(slabs0.contains_key(p));
                }
            }
            let part = self.partial_slabs@;
            assert forall|k: int| 0 <= k < part.len() implies self.spec_slabs().contains_key(
                #[trigger] part[k],
            ) && self.spec_slabs()[part[k]].spec_allocated() < ops by {
                if k < partial_mid.len() {
                    assert(partial_mid[k] == old(self).spec_partial()[k]);
                    if part[k] == pfn {
                        assert(old(self).spec_partial()[old(self).spec_partial().len() - 1] == pfn);
                        assert(false);
                    }
                }
            }
            assert forall|p: usize|
                #[trigger] self.spec_slabs().contains_key(p) && self.spec_slabs()[p].spec_allocated()
                    < ops implies part.contains(p) by {
                if p != pfn {
                    assert(slabs0.contains_key(p));
                    assert(old(self).spec_partial().contains(p));
                    let k = choose|k: int| 0 <= k < old(self).spec_partial().len() && old(self).spec_partial()[k] == p;
                    if from_list {
                        assert(k != old(self).spec_partial().len() - 1);
                    }
                    assert(part[k] == p);
                } else {
                    assert(part[part.len() - 1] == p);
                }
            }
            if next_allocated < ops {
                assert forall|i: int, j: int| 0 <= i < j < part.len() implies part[i] != part[j] by {
                    if j == part.len() - 1 && i < partial_mid.len() {
                        assert(partial_mid[i] == old(self).spec_partial()[i]);
                        if part[i] == pfn {
                            assert(false);
                        }
                    } else {
                        assert(partial_mid[i] == old(self).spec_partial()[i]);
                        assert(partial_mid[j] == old(self).spec_partial()[j]);
                    }
                }
            } else {
                assert forall|i: int, j: int| 0 <= i < j < part.len() implies part[i] != part[j] by {
                    assert(partial_mid[i] == old(self).spec_partial()[i]);
                    assert(partial_mid[j] == old(self).spec_partial()[j]);
                }
            }
            assert forall|p: usize, j: int|
                (p != pfn || j != index) implies self.is_object(meta0, p, j) == old(self).is_object(
                meta0,
                p,
                j,
            ) by {
                if p == pfn && !from_list {
                    assert(!old(self).spec_slabs().contains_key(p));
                }
            }
        }
        proof {
            lemma_slab_bytes_bound(meta.slab_order);
            lemma_obj_addr_fits(*meta, pfn as int, index as int);
        }
        let offset = meta.first_object_offset();
        let base = physmap_addr_of(pfn);
        let addr = base + offset + index * meta.size;
        proof {
            assert(addr == obj_addr(*meta, pfn as int, index as int));
            assert(!old(self).is_object(*meta, pfn, index as int));
            assert(self.is_object(*meta, pfn, index as int));
        }
        Ok(addr)
    }
}

impl SizeClassInner {
    /// Takes the slab at frame `pfn` off the list of slabs with free objects.
    fn unlink_partial(&mut self, pfn: usize)
        requires
            old(self).spec_partial().contains(pfn),
        ensures
            final(self).spec_slabs() == old(self).spec_slabs(),
            exists|k: int|
                0 <= k < old(self).spec_partial().len() && old(self).spec_partial()[k] == pfn
                    && final(self).spec_partial() == old(self).spec_partial().remove(k),
    {
        let mut k: usize = 0;
        while k < self.partial_slabs.len()
            invariant
                *self == *old(self),
                k <= self.partial_slabs@.len(),
                self.partial_slabs@.contains(pfn),
                forall|j: int| 0 <= j < k ==> self.partial_slabs@[j] != pfn,
            decreases self.partial_slabs@.len() - k,
        {
            if self.partial_slabs[k] == pfn {
                let ghost k0 = k as int;
                self.partial_slabs.remove(k);
                proof {
                    assert(old(self).spec_partial()[k0] == pfn);
                    assert(self.spec_partial() == old(self).spec_partial().remove(k0));
                }
                return;
            }
            k = k + 1;
        }
        proof {
            let j = choose|j: int| 0 <= j < self.partial_slabs@.len() && self.partial_slabs@[j] == pfn;
        }
    }

    /// Gives back the object at `ptr`, which must be handed out. A slab left with no object
    /// handed out is given back to `pmm` as it is; a full slab that gains a free object goes back
    /// on the list.
    pub fn deallocate(&mut self, meta: &SizeClassMeta, pmm: &mut PhysManager, ptr: usize)
        requires
            old(self).wf(*meta, old(pmm).spec_max_pfn()),
            old(pmm).wf(),
            physmap_fits(*old(pmm)),
            exists|pfn: usize, index: int|
                old(self).is_object(*meta, pfn, index) && ptr == #[trigger] obj_addr(
                    *meta,
                    pfn as int,
                    index,
                ),
        ensures
            final(self).wf(*meta, final(pmm).spec_max_pfn()),
            final(pmm).wf(),
            final(pmm).spec_max_pfn() == old(pmm).spec_max_pfn(),
            final(pmm).spec_total_pages() == old(pmm).spec_total_pages(),
            exists|pfn: usize, index: int|
                {
                    &&& ptr == #[trigger] obj_addr(*meta, pfn as int, index)
                    &&& old(self).is_object(*meta, pfn, index)
                    &&& forall|p: usize, j: int|
                        final(self).is_object(*meta, p, j) == (old(self).is_object(*meta, p, j) && (p
                            != pfn || j != index))
                    &&& old(self).spec_slabs()[pfn].spec_allocated() == 1 ==> {
                        &&& !final(self).spec_slabs().contains_key(pfn)
                        &&& final(pmm).spec_free_pages() >= old(pmm).spec_free_pages() + pow2(
                            meta.spec_slab_order() as nat,
                        )
                    }
                    &&& old(self).spec_slabs()[pfn].spec_allocated() > 1 ==> {
                        &&& final(self).spec_slabs()[pfn].spec_allocated() == old(self).spec_slabs()[pfn].spec_allocated() - 1
                        &&& *final(pmm) == *old(pmm)
                    }
                },
    {
        let ghost (pfn0, index0) = choose|pfn: usize, index: int|
            old(self).is_object(*meta, pfn, index) && ptr == #[trigger] obj_addr(
                *meta,
                pfn as int,
                index,
            );
        let ghost limit = pmm.spec_max_pfn();
        let ghost slabs0 = self.slabs@;
        let ops = meta.objects_per_slab;
        proof {
            lemma_slab_bytes_bound(meta.slab_order);
            vstd::arithmetic::power2::lemma2_to64();
            vstd::bits::lemma_usize_shl_is_mul(4096, meta.slab_order);
            vstd::arithmetic::mul::lemma_mul_is_commutative(4096, pow2(meta.slab_order as nat) as int);
            assert(Self::slab_ok(*meta, limit, pfn0, slabs0[pfn0]));
            lemma_obj_addr_fits(*meta, pfn0 as int, index0);
            lemma_slab_addr_aligned(pfn0 as int, meta.slab_order);
        }
        let slab_size: usize = PAGE_SIZE << meta.slab_order;
        let slab_addr = align_down(ptr, slab_size);
        proof {
            let a = physmap_addr(pfn0 as int);
            let rem = ptr - a;
            let q = a / slab_size as int;
            assert(a == q * slab_size) by {
                vstd::arithmetic::div_mod::lemma_fundamental_div_mod(a, slab_size as int);
            }
            assert(ptr == q * slab_size + rem);
            vstd::arithmetic::div_mod::lemma_fundamental_div_mod_converse(ptr as int, slab_size as int, q, rem);
            assert(slab_addr == a);
            assert(slab_addr as int / 4096 == spec_phys_map_base() + pfn0) by (nonlinear_arith)
                requires
                    slab_addr == (spec_phys_map_base() + pfn0) * 4096,
            ;
        }
        let pfn = next_frame_of(slab_addr);
        assert(pfn == pfn0);
        let mut header = match self.slabs.remove(&pfn) {
            Some(h) => h,
            None => {
                proof {
                    assert(false);
                }
                return;
            },
        };
        let prev_allocated = header.allocated;
        let next_allocated = prev_allocated - 1;
        if next_allocated == 0 {
            proof {
                lemma_count_update(header.bitmap@, ops as int, index0, false);
                lemma_count_zero(header.bitmap@.update(index0, false), ops as int);
            }
            if ops > 1 {
                self.unlink_partial(pfn);
            }
            proof {
                let part = self.partial_slabs@;
                let part0 = old(self).spec_partial();
                if ops > 1 {
                    let k = choose|k: int|
                        0 <= k < part0.len() && part0[k] == pfn && part == part0.remove(k);
                    assert forall|i: int, j: int| 0 <= i < j < part.len() implies part[i] != part[j] by {
                        if i < k {
                            assert(part[i] == part0[i]);
                        } else {
                            assert(part[i] == part0[i + 1]);
                        }
                        if j < k {
                            assert(part[j] == part0[j]);
                        } else {
                            assert(part[j] == part0[j + 1]);
                        }
                    }
                    assert forall|i: int| 0 <= i < part.len() implies self.spec_slabs().contains_key(
                        #[trigger] part[i],
                    ) && self.spec_slabs()[part[i]].spec_allocated() < ops by {
                        if i < k {
                            assert(part[i] == part0[i]);
                        } else {
                            assert(part[i] == part0[i + 1]);
                        }
                    }
                    assert forall|p: usize|
                        #[trigger] self.spec_slabs().contains_key(p) && self.spec_slabs()[p].spec_allocated()
                            < ops implies part.contains(p) by {
                        assert(part0.contains(p));
                        let i = choose|i: int| 0 <= i < part0.len() && part0[i] == p;
                        if i < k {
                            assert(part[i] == p);
                        } else {
                            assert(i != k);
                            assert(part[i - 1] == p);
                        }
                    }
                } else {
                    assert forall|i: int| 0 <= i < part.len() implies self.spec_slabs().contains_key(
                        #[trigger] part[i],
                    ) && self.spec_slabs()[part[i]].spec_allocated() < ops by {
                        if part[i] == pfn {
                            assert(false);
                        }
                    }
                }
            }
            free_virt_pages(pmm, slab_addr, meta.slab_order);
            proof {
                assert forall|p: usize, j: int|
                    self.is_object(*meta, p, j) == (old(self).is_object(*meta, p, j) && (p != pfn0 || j
                        != index0)) by {
                    if p == pfn0 && 0 <= j < ops && j != index0 {
                        assert(!header.bitmap@.update(index0, false)[j]);
                    }
                }
                assert(ptr == obj_addr(*meta, pfn0 as int, index0));
            }
            return;
        }
        header.allocated = next_allocated;
        let ghost part0 = self.partial_slabs@;
        if prev_allocated == ops && next_allocated < ops {
            self.partial_slabs.push(pfn);
        }
        let offset = meta.first_object_offset();
        let index = (ptr - slab_addr - offset) / meta.size;
        proof {
            vstd::arithmetic::div_mod::lemma_fundamental_div_mod_converse(
                (ptr - slab_addr - offset) as int,
                meta.size as int,
                index0,
                0,
            );
        }
        let ghost bits0 = header.bitmap@;
        header.bitmap.unset(index);
        proof {
            lemma_count_update(bits0, ops as int, index as int, false);
        }
        self.slabs.insert(pfn, header);
        proof {
            let part = self.partial_slabs@;
            assert(Self::slab_ok(*meta, limit, pfn, header));
            assert forall|p: usize| #[trigger] self.spec_slabs().contains_key(p) implies Self::slab_ok(
                *meta,
                limit,
                p,
                self.spec_slabs()[p],
            ) by {
                if p != pfn {
                    assert(slabs0.contains_key(p));
                }
            }
            if prev_allocated == ops {
                assert(!part0.contains(pfn));
                assert forall|i: int, j: int| 0 <= i < j < part.len() implies part[i] != part[j] by {
                    if j == part.len() - 1 {
                        assert(part[i] == part0[i]);
                    } else {
                        assert(part[i] == part0[i]);
                        assert(part[j] == part0[j]);
                    }
                }
                assert forall|i: int| 0 <= i < part.len() implies self.spec_slabs().contains_key(
                    #[trigger] part[i],
                ) && self.spec_slabs()[part[i]].spec_allocated() < ops by {
                    if i < part0.len() {
                        assert(part[i] == part0[i]);
                    }
                }
                assert forall|p: usize|
                    #[trigger] self.spec_slabs().contains_key(p) && self.spec_slabs()[p].spec_allocated()
                        < ops implies part.contains(p) by {
                    if p == pfn {
                        assert(part[part.len() - 1] == p);
                    } else {
                        assert(part0.contains(p));
                        let i = choose|i: int| 0 <= i < part0.len() && part0[i] == p;
                        assert(part[i] == p);
                    }
                }
            } else {
                assert(part0.contains(pfn));
            }
            assert forall|p: usize, j: int|
                self.is_object(*meta, p, j) == (old(self).is_object(*meta, p, j) && (p != pfn0 || j
                    != index0)) by {
                if p != pfn0 {
                    if self.spec_slabs().contains_key(p) {
                        assert(slabs0.contains_key(p));
                    }
                }
            }
            assert(ptr == obj_addr(*meta, pfn0 as int, index0));
        }
    }
}

/// The physmap address of a slab's block is aligned to the slab's size.
proof fn lemma_slab_addr_aligned(pfn: int, order: usize)
    requires
        order <= 3,
        pfn >= 0,
        pfn % pow2(order as nat) as int == 0,
        usize::BITS == 64,
    ensures
        physmap_addr(pfn) % slab_bytes(order) == 0,
{
    vstd::arithmetic::power2::lemma2_to64();
    let p = pow2(order as nat) as int;
    let base = spec_phys_map_base() as int;
    assert(base == 0xf_fff8_0000_0000);
    if order == 0 {
        assert(p == 1);
    } else if order == 1 {
        assert(p == 2);
    } else if order == 2 {
        assert(p == 4);
    } else {
        assert(p == 8);
    }
    assert(base % p == 0);
    let k = (base + pfn) / p;
    assert(base + pfn == k * p) by {
        vstd::arithmetic::div_mod::lemma_mod_adds(base, pfn, p);
        vstd::arithmetic::div_mod::lemma_fundamental_div_mod(base + pfn, p);
    }
    assert(physmap_addr(pfn) == k * (p * 4096)) by (nonlinear_arith)
        requires
            physmap_addr(pfn) == (base + pfn) * 4096,
            base + pfn == k * p,
    ;
    vstd::arithmetic::div_mod::lemma_mod_multiples_basic(k, p * 4096);
}

/// The physmap address of frame `pfn`.
fn physmap_addr_of(pfn: usize) -> (r: usize)
    requires
        usize::BITS == 64,
        pfn < spec_phys_map_max_pages(),
        spec_phys_map_base() + spec_phys_map_max_pages() + 16 <= 0xf_ffff_ffff_ffff,
    ensures
        r == physmap_addr(pfn as int),
{
    proof {
        assert((spec_phys_map_base() + pfn + 1) * 4096 <= usize::MAX) by (nonlinear_arith)
            requires
                spec_phys_map_base() + pfn + 1 <= 0xf_ffff_ffff_ffff,
                usize::MAX == 0xffff_ffff_ffff_ffff,
        ;
    }
    pfn_to_physmap(PhysFrameNum::new(pfn)).addr().as_usize()
}

/// The frame whose physmap address is `addr`.
fn next_frame_of(addr: usize) -> (r: usize)
    requires
        spec_phys_map_base() * PAGE_SIZE <= addr,
        (addr as int / PAGE_SIZE as int) < spec_phys_map_base() + spec_phys_map_max_pages(),
    ensures
        r == addr as int / PAGE_SIZE as int - spec_phys_map_base(),
{
    proof {
        assert(spec_phys_map_base() <= addr as int / 4096) by (nonlinear_arith)
            requires
                spec_phys_map_base() * 4096 <= addr,
        ;
    }
    physmap_to_pfn(VirtAddr::new(addr).containing_page()).as_usize()
}

/// Every object of a slab lies within the slab, whose end fits in the address space.
proof fn lemma_obj_addr_fits(meta: SizeClassMeta, pfn: int, index: int)
    requires
        meta.wf(),
        usize::BITS == 64,
        0 <= pfn < spec_phys_map_max_pages(),
        spec_phys_map_base() + spec_phys_map_max_pages() + 16 <= 0xf_ffff_ffff_ffff,
        0 <= index < meta.spec_objects_per_slab(),
    ensures
        physmap_addr(pfn) + meta.spec_first_object_offset() + index * meta.spec_size()
            + meta.spec_size() <= physmap_addr(pfn) + slab_bytes(meta.spec_slab_order()),
        physmap_addr(pfn) + slab_bytes(meta.spec_slab_order()) <= usize::MAX,
        meta.spec_first_object_offset() >= 0,
        index * meta.spec_size() >= 0,
{
    lemma_slab_bytes_bound(meta.spec_slab_order());
    let n = meta.spec_objects_per_slab() as int;
    let sz = meta.spec_size() as int;
    vstd::arithmetic::mul::lemma_mul_is_commutative(n, sz);
    assert(index * sz + sz <= n * sz) by (nonlinear_arith)
        requires
            0 <= index < n,
            sz > 0,
    ;
    assert(index * sz >= 0) by (nonlinear_arith)
        requires
            0 <= index,
            sz > 0,
    ;
    assert(physmap_addr(pfn) + 32768 <= usize::MAX) by (nonlinear_arith)
        requires
            spec_phys_map_base() + pfn + 16 <= 0xf_ffff_ffff_ffff,
            usize::MAX == 0xffff_ffff_ffff_ffff,
            physmap_addr(pfn) == (spec_phys_map_base() + pfn) * 4096,
    ;
}

/// A size class: objects of one size, carved from slabs of one order.
pub struct SizeClass {
    meta: SizeClassMeta,
    inner: SizeClassInner,
}

impl SizeClass {
    /// The layout of the class's slabs.
    pub closed spec fn spec_meta(&self) -> SizeClassMeta {
        self.meta
    }

    /// The class's slabs.
    pub closed spec fn spec_inner(&self) -> SizeClassInner {
        self.inner
    }

    /// Creates an empty class of objects of `size` bytes in slabs of `2 ** slab_order` pages.
    pub fn new(size: usize, slab_order: usize) -> (r: Self)
        requires
            size > 0,
            slab_order <= 3,
            slab_fits(size, slab_order, 1),
        ensures
            r.spec_meta().wf(),
            r.spec_meta().spec_size() == size,
            r.spec_meta().spec_slab_order() == slab_order,
            forall|limit: usize| r.spec_inner().wf(r.spec_meta(), limit),
            r.spec_inner().spec_slabs().is_empty(),
    {
        let meta = SizeClassMeta::new(size, slab_order);
        proof {
            if meta.spec_objects_per_slab() < 1 {
                assert(!slab_fits(size, slab_order, 1));
            }
        }
        Self { meta, inner: SizeClassInner::new() }
    }

    /// The size of the class's objects.
    pub fn size(&self) -> (r: usize)
        ensures
            r == self.spec_meta().spec_size(),
    {
        self.meta.size
    }

    /// Hands out a free object of the class; see [`SizeClassInner::allocate`].
    pub fn allocate(&mut self, pmm: &mut PhysManager) -> (r: core::result::Result<usize, HeapAllocError>)
        requires
            old(self).spec_inner().wf(old(self).spec_meta(), old(pmm).spec_max_pfn()),
            old(pmm).wf(),
            old(pmm).split_in_range(old(self).spec_meta().spec_slab_order() as nat),
            physmap_fits(*old(pmm)),
            old(self).spec_inner().spec_partial().len() == 0 && has_block(
                *old(pmm),
                old(self).spec_meta().spec_slab_order(),
            ) ==> !old(self).spec_inner().spec_slabs().contains_key(
                next_block(*old(pmm), old(self).spec_meta().spec_slab_order())@,
            ),
        ensures
            final(self).spec_meta() == old(self).spec_meta(),
            final(self).spec_inner().wf(final(self).spec_meta(), final(pmm).spec_max_pfn()),
            final(pmm).wf(),
            final(pmm).spec_max_pfn() == old(pmm).spec_max_pfn(),
            final(pmm).spec_total_pages() == old(pmm).spec_total_pages(),
            r is Err <==> old(self).spec_inner().spec_partial().len() == 0 && !has_block(
                *old(pmm),
                old(self).spec_meta().spec_slab_order(),
            ),
            r matches Ok(addr) ==> exists|pfn: usize, index: int|
                {
                    &&& addr == #[trigger] obj_addr(old(self).spec_meta(), pfn as int, index)
                    &&& !old(self).spec_inner().is_object(old(self).spec_meta(), pfn, index)
                    &&& final(self).spec_inner().is_object(old(self).spec_meta(), pfn, index)
                    &&& forall|p: usize, j: int|
                        (p != pfn || j != index) ==> final(self).spec_inner().is_object(
                            old(self).spec_meta(),
                            p,
                            j,
                        ) == old(self).spec_inner().is_object(old(self).spec_meta(), p, j)
                },
    {
        self.inner.allocate(&self.meta, pmm)
    }

    /// Gives back the object at `ptr`; see [`SizeClassInner::deallocate`].
    pub fn deallocate(&mut self, pmm: &mut PhysManager, ptr: usize)
        requires
            old(self).spec_inner().wf(old(self).spec_meta(), old(pmm).spec_max_pfn()),
            old(pmm).wf(),
            physmap_fits(*old(pmm)),
            exists|pfn: usize, index: int|
                old(self).spec_inner().is_object(old(self).spec_meta(), pfn, index) && ptr
                    == #[trigger] obj_addr(old(self).spec_meta(), pfn as int, index),
        ensures
            final(self).spec_meta() == old(self).spec_meta(),
            final(self).spec_inner().wf(final(self).spec_meta(), final(pmm).spec_max_pfn()),
            final(pmm).wf(),
            final(pmm).spec_max_pfn() == old(pmm).spec_max_pfn(),
            final(pmm).spec_total_pages() == old(pmm).spec_total_pages(),
            exists|pfn: usize, index: int|
                {
                    &&& ptr == #[trigger] obj_addr(old(self).spec_meta(), pfn as int, index)
                    &&& old(self).spec_inner().is_object(old(self).spec_meta(), pfn, index)
                    &&& forall|p: usize, j: int|
                        final(self).spec_inner().is_object(old(self).spec_meta(), p, j) == (old(
                            self,
                        ).spec_inner().is_object(old(self).spec_meta(), p, j) && (p != pfn || j
                            != index))
                },
    {
        self.inner.deallocate(&self.meta, pmm, ptr)
    }
}

/// The index of the first of `sizes` from `i` on that is at least `size`, or the length of
/// `sizes` when there is none.
pub open spec fn first_class_at_least(sizes: Seq<usize>, size: usize, i: int) -> int
    decreases sizes.len() - i,
{
    if i >= sizes.len() {
        sizes.len() as int
    } else if sizes[i] >= size {
        i
    } else {
        first_class_at_least(sizes, size, i + 1)
    }
}

/// In sorted sizes, the first one at least `size` is the one just after all the smaller ones.
proof fn lemma_first_class(sizes: Seq<usize>, size: usize, i: int, lo: int)
    requires
        0 <= i <= lo <= sizes.len(),
        forall|a: int, b: int| 0 <= a < b < sizes.len() ==> sizes[a] < sizes[b],
        forall|j: int| i <= j < lo ==> sizes[j] < size,
        lo < sizes.len() ==> sizes[lo] >= size,
    ensures
        first_class_at_least(sizes, size, i) == lo,
    decreases lo - i,
{
    if i < lo {
        lemma_first_class(sizes, size, i + 1, lo);
    }
}

/// The slab allocator: size classes of increasing object sizes. Requests larger than the largest
/// class get a block of frames of their own.
pub struct Allocator {
    size_classes: Vec<SizeClass>,
}

/// How a block was resized by [`resize`].
#[derive(Clone, Copy, Debug, PartialEq, Eq, Structural)]
pub enum Resized {
    /// The block already has room for the new size; it now spans `len` bytes.
    InPlace { len: usize },
    /// A new block of `len` bytes was allocated at `addr`; `copy_len` bytes must be copied into it
    /// before the old block is given back.
    Moved { addr: usize, len: usize, copy_len: usize },
}

impl Allocator {
    /// The object sizes of the classes, in order.
    pub closed spec fn spec_sizes(&self) -> Seq<usize> {
        Seq::new(self.size_classes@.len(), |i: int| self.size_classes@[i].spec_meta().spec_size())
    }

    /// The classes.
    pub closed spec fn spec_classes(&self) -> Seq<SizeClass> {
        self.size_classes@
    }

    /// The class sizes increase strictly.
    pub open spec fn sorted_classes(&self) -> bool {
        forall|a: int, b: int|
            0 <= a < b < self.spec_sizes().len() ==> self.spec_sizes()[a] < self.spec_sizes()[b]
    }

    /// The class sizes increase strictly and every class is valid for frames below `limit`.
    pub open spec fn wf(&self, limit: usize) -> bool {
        &&& self.sorted_classes()
        &&& self.spec_classes().len() == self.spec_sizes().len()
        &&& forall|i: int|
            0 <= i < self.spec_classes().len() ==> {
                let c = #[trigger] self.spec_classes()[i];
                &&& c.spec_inner().wf(c.spec_meta(), limit)
                &&& c.spec_meta().spec_size() == self.spec_sizes()[i]
            }
    }

    /// The number of bytes that a request of `size` bytes receives.
    pub open spec fn spec_usable(&self, size: usize) -> int {
        let i = self.spec_class_for(size);
        if i < self.spec_sizes().len() {
            self.spec_sizes()[i] as int
        } else {
            spec_block_bytes(spec_raw_page_order(size))
        }
    }

    /// The index of the class that serves requests of `size` bytes: the first one large enough.
    pub open spec fn spec_class_for(&self, size: usize) -> int {
        first_class_at_least(self.spec_sizes(), size, 0)
    }

    /// Whether the next block that `pmm` hands out is no slab of a class without partial slabs.
    pub open spec fn fresh_for(&self, pmm: PhysManager) -> bool {
        forall|i: int|
            0 <= i < self.spec_classes().len() ==> {
                let c = #[trigger] self.spec_classes()[i];
                c.spec_inner().spec_partial().len() == 0 && has_block(
                    pmm,
                    c.spec_meta().spec_slab_order(),
                ) ==> !c.spec_inner().spec_slabs().contains_key(
                    next_block(pmm, c.spec_meta().spec_slab_order())@,
                )
            }
    }

    /// Whether `ptr` is a block handed out for `size` bytes: an object of the class for `size`, or
    /// a block of frames of the order for `size` when no class is large enough.
    pub open spec fn is_live(&self, pmm: PhysManager, ptr: usize, size: usize) -> bool {
        let i = self.spec_class_for(size);
        if i < self.spec_classes().len() {
            let c = self.spec_classes()[i];
            exists|pfn: usize, index: int|
                c.spec_inner().is_object(c.spec_meta(), pfn, index) && ptr == #[trigger] obj_addr(
                    c.spec_meta(),
                    pfn as int,
                    index,
                )
        } else {
            let order = spec_raw_page_order(size);
            &&& order < 16
            &&& exists|pfn: int|
                0 <= pfn < pmm.spec_max_pfn() && pfn % pow2(order as nat) as int == 0 && ptr
                    == #[trigger] physmap_addr(pfn)
        }
    }

    /// Creates an allocator with the classes `(size, slab_order)` of `classes`, which must have
    /// strictly increasing sizes.
    pub fn new(classes: &[(usize, usize)]) -> (r: Self)
        requires
            forall|i: int|
                0 <= i < classes@.len() ==> (#[trigger] classes@[i]).0 > 0 && classes@[i].1 <= 3
                    && slab_fits(classes@[i].0, classes@[i].1, 1),
            forall|a: int, b: int| 0 <= a < b < classes@.len() ==> classes@[a].0 < classes@[b].0,
        ensures
            forall|limit: usize| r.wf(limit),
            r.spec_sizes() == classes@.map_values(|c: (usize, usize)| c.0),
            forall|i: int|
                0 <= i < classes@.len() ==> (#[trigger] r.spec_classes()[i]).spec_meta().spec_slab_order()
                    == classes@[i].1,
    {
        let mut size_classes: Vec<SizeClass> = Vec::new();
        let mut i: usize = 0;
        while i < classes.len()
            invariant
                i <= classes@.len(),
                size_classes@.len() == i,
                forall|j: int|
                    0 <= j < classes@.len() ==> (#[trigger] classes@[j]).0 > 0 && classes@[j].1 <= 3
                        && slab_fits(classes@[j].0, classes@[j].1, 1),
                forall|j: int|
                    0 <= j < i ==> {
                        let c = #[trigger] size_classes@[j];
                        &&& c.spec_meta().spec_size() == classes@[j].0
                        &&& c.spec_meta().spec_slab_order() == classes@[j].1
                        &&& forall|limit: usize| c.spec_inner().wf(c.spec_meta(), limit)
                    },
            decreases classes@.len() - i,
        {
            let (size, order) = classes[i];
            size_classes.push(SizeClass::new(size, order));
            i = i + 1;
        }
        let r = Self { size_classes };
        proof {
            assert(r.spec_sizes() =~= classes@.map_values(|c: (usize, usize)| c.0));
        }
        r
    }

    /// The allocator with the kernel's size classes: 2 and 8 bytes for small marker objects and
    /// single pointers, then classes of increasing granularity up to 2048 bytes. Rounding a size up
    /// to its class never lowers the largest power of two dividing it, so objects of a class are
    /// aligned as any size rounded up to it requires.
    pub fn kernel() -> (r: Self)
        ensures
            forall|limit: usize| r.wf(limit),
            r.spec_sizes() == seq![
                2usize, 8, 16, 32, 48, 64, 80, 96, 128, 160, 192, 224, 256, 320, 384, 448, 512,
                640, 768, 896, 1024, 1280, 1536, 1792, 2048,
            ],
    {
        let classes: [(usize, usize); 25] = [
            (2, 0),
            (8, 0),
            (16, 0),
            (32, 0),
            (48, 0),
            (64, 0),
            (80, 0),
            (96, 0),
            (128, 0),
            (160, 0),
            (192, 0),
            (224, 0),
            (256, 1),
            (320, 1),
            (384, 1),
            (448, 1),
            (512, 2),
            (640, 2),
            (768, 2),
            (896, 2),
            (1024, 3),
            (1280, 3),
            (1536, 3),
            (1792, 3),
            (2048, 3),
        ];
        proof {
            vstd::arithmetic::power2::lemma2_to64();
        }
        let r = Self::new(classes.as_slice());
        proof {
            assert(classes@.map_values(|c: (usize, usize)| c.0) =~= seq![
                2usize, 8, 16, 32, 48, 64, 80, 96, 128, 160, 192, 224, 256, 320, 384, 448, 512,
                640, 768, 896, 1024, 1280, 1536, 1792, 2048,
            ]);
        }
        r
    }

    /// The index of the class that serves requests of `size` bytes, or `None` when every class is
    /// too small.
    pub fn get_size_class(&self, size: usize) -> (r: Option<usize>)
        requires
            forall|a: int, b: int|
                0 <= a < b < self.spec_sizes().len() ==> self.spec_sizes()[a] < self.spec_sizes()[b],
        ensures
            0 <= self.spec_class_for(size) <= self.spec_sizes().len(),
            self.spec_class_for(size) < self.spec_sizes().len() ==> (r matches Some(i) && i as int
                == self.spec_class_for(size)),
            self.spec_class_for(size) >= self.spec_sizes().len() ==> r is None,
    {
        let ghost sizes = self.spec_sizes();
        let mut lo: usize = 0;
        let mut hi: usize = self.size_classes.len();
        while lo < hi
            invariant
                sizes == self.spec_sizes(),
                sizes.len() == self.size_classes@.len(),
                0 <= lo <= hi <= sizes.len(),
                forall|a: int, b: int| 0 <= a < b < sizes.len() ==> sizes[a] < sizes[b],
                forall|j: int| 0 <= j < lo ==> sizes[j] < size,
                forall|j: int| hi <= j < sizes.len() ==> sizes[j] >= size,
            decreases hi - lo,
        {
            let mid = lo + (hi - lo) / 2;
            assert(self.size_classes@[mid as int].spec_meta().spec_size() == sizes[mid as int]);
            if self.size_classes[mid].size() < size {
                proof {
                    assert forall|j: int| 0 <= j < mid + 1 implies sizes[j] < size by {
                        if j < mid {
                            assert(sizes[j] < sizes[mid as int]);
                        }
                    }
                }
                lo = mid + 1;
            } else {
                proof {
                    assert forall|j: int| mid <= j < sizes.len() implies sizes[j] >= size by {
                        if j > mid {
                            assert(sizes[mid as int] < sizes[j]);
                        }
                    }
                }
                hi = mid;
            }
        }
        proof {
            lemma_first_class(sizes, size, 0, lo as int);
        }
        if lo < self.size_classes.len() {
            Some(lo)
        } else {
            None
        }
    }

    /// Hands out a block of at least `size` bytes: an object of the first class large enough, or
    /// a block of frames of its own when no class is. Returns its address and its size.
    ///
    /// Errors: `HeapAllocError` when the class has no free object and `pmm` no block for a new
    /// slab, or when `pmm` has no block for a large request.
    pub fn allocate(&mut self, size: usize, pmm: &mut PhysManager) -> (r: core::result::Result<
        (usize, usize),
        HeapAllocError,
    >)
        requires
            old(self).wf(old(pmm).spec_max_pfn()),
            old(pmm).wf(),
            forall|o: nat| o < 16 ==> old(pmm).split_in_range(o),
            physmap_fits(*old(pmm)),
            old(self).fresh_for(*old(pmm)),
            size + PAGE_SIZE <= usize::MAX,
        ensures
            final(self).wf(final(pmm).spec_max_pfn()),
            final(self).spec_sizes() == old(self).spec_sizes(),
            final(pmm).wf(),
            final(pmm).spec_max_pfn() == old(pmm).spec_max_pfn(),
            final(pmm).spec_total_pages() == old(pmm).spec_total_pages(),
            ({
                let i = old(self).spec_class_for(size);
                i < old(self).spec_sizes().len() ==> {
                    let c0 = old(self).spec_classes()[i];
                    let c1 = final(self).spec_classes()[i];
                    &&& (r is Err <==> c0.spec_inner().spec_partial().len() == 0 && !has_block(
                        *old(pmm),
                        c0.spec_meta().spec_slab_order(),
                    ))
                    &&& forall|j: int|
                        0 <= j < old(self).spec_classes().len() && j != i ==> final(self).spec_classes()[j] == old(self).spec_classes()[j]
                    &&& r matches Ok((addr, len)) ==> len == old(self).spec_sizes()[i] && exists|
                        pfn: usize,
                        index: int,
                    |
                        {
                            &&& addr == #[trigger] obj_addr(c0.spec_meta(), pfn as int, index)
                            &&& !c0.spec_inner().is_object(c0.spec_meta(), pfn, index)
                            &&& c1.spec_inner().is_object(c0.spec_meta(), pfn, index)
                            &&& forall|p: usize, j: int|
                                (p != pfn || j != index) ==> c1.spec_inner().is_object(
                                    c0.spec_meta(),
                                    p,
                                    j,
                                ) == c0.spec_inner().is_object(c0.spec_meta(), p, j)
                        }
                }
            }),
            ({
                let order = spec_raw_page_order(size);
                old(self).spec_class_for(size) >= old(self).spec_sizes().len() ==> {
                    &&& (r is Err <==> !has_block(*old(pmm), order))
                    &&& final(self).spec_classes() == old(self).spec_classes()
                    &&& r matches Ok((addr, len)) ==> addr == physmap_addr(
                        next_block(*old(pmm), order)@ as int,
                    ) && len == spec_block_bytes(order)
                }
            }),
    {
        match self.get_size_class(size) {
            Some(i) => {
                let ghost c0 = self.size_classes@[i as int];
                proof {
                    assert(self.size_classes@[i as int].spec_inner().wf(
                        c0.spec_meta(),
                        pmm.spec_max_pfn(),
                    ));
                }
                let len = self.size_classes[i].size();
                let ptr = self.size_classes[i].allocate(pmm)?;
                proof {
                    assert forall|j: int| 0 <= j < self.spec_classes().len() implies {
                        let c = #[trigger] self.spec_classes()[j];
                        &&& c.spec_inner().wf(c.spec_meta(), pmm.spec_max_pfn())
                        &&& c.spec_meta().spec_size() == self.spec_sizes()[j]
                    } by {
                        if j != i {
                            assert(self.spec_classes()[j] == old(self).spec_classes()[j]);
                            assert(old(self).spec_classes()[j].spec_inner().wf(
                                old(self).spec_classes()[j].spec_meta(),
                                pmm.spec_max_pfn(),
                            ));
                        }
                    }
                    assert(self.spec_sizes() =~= old(self).spec_sizes());
                }
                Ok((ptr, len))
            },
            None => {
                proof {
                    lemma_raw_page_order_small(size);
                }
                let order = raw_page_order(size);
                if order >= 16 {
                    return Err(HeapAllocError);
                }
                let ptr = match alloc_virt_pages(pmm, order) {
                    Some(p) => p,
                    None => {
                        return Err(HeapAllocError);
                    },
                };
                proof {
                    assert forall|j: int| 0 <= j < self.spec_classes().len() implies {
                        let c = #[trigger] self.spec_classes()[j];
                        &&& c.spec_inner().wf(c.spec_meta(), pmm.spec_max_pfn())
                        &&& c.spec_meta().spec_size() == self.spec_sizes()[j]
                    } by {
                        assert(old(self).spec_classes()[j].spec_inner().wf(
                            old(self).spec_classes()[j].spec_meta(),
                            old(pmm).spec_max_pfn(),
                        ));
                    }
                }
                Ok((ptr, block_bytes(order)))
            },
        }
    }

    /// Gives back the block at `ptr`, handed out for a request of `size` bytes.
    pub fn deallocate(&mut self, ptr: usize, size: usize, pmm: &mut PhysManager)
        requires
            old(self).wf(old(pmm).spec_max_pfn()),
            old(pmm).wf(),
            physmap_fits(*old(pmm)),
            size + PAGE_SIZE <= usize::MAX,
            old(self).is_live(*old(pmm), ptr, size),
        ensures
            final(self).wf(final(pmm).spec_max_pfn()),
            final(self).spec_sizes() == old(self).spec_sizes(),
            final(pmm).wf(),
            final(pmm).spec_max_pfn() == old(pmm).spec_max_pfn(),
            final(pmm).spec_total_pages() == old(pmm).spec_total_pages(),
            ({
                let i = old(self).spec_class_for(size);
                i < old(self).spec_sizes().len() ==> {
                    let c0 = old(self).spec_classes()[i];
                    let c1 = final(self).spec_classes()[i];
                    &&& forall|j: int|
                        0 <= j < old(self).spec_classes().len() && j != i ==> final(self).spec_classes()[j] == old(self).spec_classes()[j]
                    &&& exists|pfn: usize, index: int|
                        {
                            &&& ptr == #[trigger] obj_addr(c0.spec_meta(), pfn as int, index)
                            &&& c0.spec_inner().is_object(c0.spec_meta(), pfn, index)
                            &&& forall|p: usize, j: int|
                                c1.spec_inner().is_object(c0.spec_meta(), p, j) == (
                                c0.spec_inner().is_object(c0.spec_meta(), p, j) && (p != pfn || j
                                    != index))
                        }
                }
            }),
            old(self).spec_class_for(size) >= old(self).spec_sizes().len() ==> final(self).spec_classes() == old(self).spec_classes() && final(pmm).spec_free_pages() >= old(pmm).spec_free_pages() + pow2(spec_raw_page_order(size) as nat),
    {
        match self.get_size_class(size) {
            Some(i) => {
                let ghost c0 = self.size_classes@[i as int];
                proof {
                    assert(self.size_classes@[i as int].spec_inner().wf(
                        c0.spec_meta(),
                        pmm.spec_max_pfn(),
                    ));
                }
                self.size_classes[i].deallocate(pmm, ptr);
                proof {
                    assert forall|j: int| 0 <= j < self.spec_classes().len() implies {
                        let c = #[trigger] self.spec_classes()[j];
                        &&& c.spec_inner().wf(c.spec_meta(), pmm.spec_max_pfn())
                        &&& c.spec_meta().spec_size() == self.spec_sizes()[j]
                    } by {
                        if j != i {
                            assert(self.spec_classes()[j] == old(self).spec_classes()[j]);
                            assert(old(self).spec_classes()[j].spec_inner().wf(
                                old(self).spec_classes()[j].spec_meta(),
                                pmm.spec_max_pfn(),
                            ));
                        }
                    }
                    assert(self.spec_sizes() =~= old(self).spec_sizes());
                }
            },
            None => {
                let order = raw_page_order(size);
                free_virt_pages(pmm, ptr, order);
                proof {
                    assert forall|j: int| 0 <= j < self.spec_classes().len() implies {
                        let c = #[trigger] self.spec_classes()[j];
                        &&& c.spec_inner().wf(c.spec_meta(), pmm.spec_max_pfn())
                        &&& c.spec_meta().spec_size() == self.spec_sizes()[j]
                    } by {
                        assert(old(self).spec_classes()[j].spec_inner().wf(
                            old(self).spec_classes()[j].spec_meta(),
                            old(pmm).spec_max_pfn(),
                        ));
                    }
                }
            },
        }
    }

    /// The number of bytes that a request of `size` bytes actually receives.
    pub fn usable_size(&self, size: usize) -> (r: usize)
        requires
            self.sorted_classes(),
            usize::BITS == 64,
            size + PAGE_SIZE <= usize::MAX,
        ensures
            self.spec_class_for(size) < self.spec_sizes().len() ==> r == self.spec_sizes()[self.spec_class_for(size)],
            self.spec_class_for(size) >= self.spec_sizes().len() ==> r == spec_block_bytes(
                spec_raw_page_order(size),
            ),
    {
        match self.get_size_class(size) {
            Some(i) => {
                assert(self.size_classes@[i as int].spec_meta().spec_size() == self.spec_sizes()[i as int]);
                assert(i as int == self.spec_class_for(size));
                self.size_classes[i].size()
            },
            None => block_bytes(raw_page_order(size)),
        }
    }
}

/// The number of bytes of a block of `2 ** order` frames, computed as `PAGE_SIZE << order` is in a
/// machine word: zero once the shift pushes every bit out.
pub open spec fn spec_block_bytes(order: usize) -> int {
    if order < 52 {
        pow2(order as nat) * PAGE_SIZE
    } else {
        0
    }
}

/// `PAGE_SIZE << order`, for any order that a request can need.
fn block_bytes(order: usize) -> (r: usize)
    requires
        usize::BITS == 64,
    ensures
        r == spec_block_bytes(order),
{
    if order >= 52 {
        return 0;
    }
    proof {
        vstd::arithmetic::power2::lemma2_to64();
        assert(pow2(order as nat) * 4096 <= usize::MAX) by {
            if order < 51 {
                vstd::arithmetic::power2::lemma_pow2_strictly_increases(order as nat, 51);
            }
            vstd::arithmetic::power2::lemma2_to64_rest();
        }
        vstd::arithmetic::mul::lemma_mul_is_commutative(4096, pow2(order as nat) as int);
        vstd::bits::lemma_usize_shl_is_mul(4096, order);
    }
    PAGE_SIZE << order
}

/// Requests that fit in the address space need blocks of fewer than 64 orders.
proof fn lemma_raw_page_order_small(size: usize)
    requires
        size + PAGE_SIZE <= usize::MAX,
    ensures
        spec_raw_page_order(size) < 64,
        (size + PAGE_SIZE - 1) / PAGE_SIZE as int > 1 ==> crate::num_utils::spec_log2(
            ((size + PAGE_SIZE - 1) / PAGE_SIZE as int - 1) as nat,
        ) < 52,
{
    let pages = (size + 4095) / 4096int;
    if pages > 1 {
        let v = (pages - 1) as nat;
        crate::num_utils::lemma_log2_bounds(v);
        vstd::arithmetic::power2::lemma2_to64();
        assert(pages <= 0x10_0000_0000_0000) by (nonlinear_arith)
            requires
                pages == (size + 4095) / 4096int,
                size + 4096 <= usize::MAX,
                usize::MAX <= 0xffff_ffff_ffff_ffff,
        ;
        if crate::num_utils::spec_log2(v) >= 52 {
            if crate::num_utils::spec_log2(v) > 52 {
                vstd::arithmetic::power2::lemma_pow2_strictly_increases(52, crate::num_utils::spec_log2(v));
            }
            assert(pow2(52) == 0x10_0000_0000_0000) by {
                vstd::arithmetic::power2::lemma2_to64_rest();
            }
        }
    }
}

/// Whether `layout` can be served: its size rounded up to its alignment, plus a page, fits in the
/// address space.
pub open spec fn layout_fits(layout: Layout) -> bool {
    &&& layout.wf()
    &&& layout.spec_size() + layout.spec_align() + PAGE_SIZE <= usize::MAX
}

/// The number of bytes reserved for `layout`: its size rounded up to its alignment.
pub open spec fn spec_effective_size(layout: Layout) -> usize {
    (((layout.spec_size() + layout.spec_align() - 1) / layout.spec_align() as int)
        * layout.spec_align()) as usize
}

/// Allocates memory for `layout` from `heap`, returning its address and the number of bytes
/// available there; see [`Allocator::allocate`]. The request is the layout's size rounded up to
/// its alignment; it gets a free object of the first size class that holds it, whose size is the
/// length returned, or, when no class does, the next block of frames of the smallest order that
/// holds it, whose whole size is returned.
pub fn allocate(heap: &mut Allocator, pmm: &mut PhysManager, layout: Layout) -> (r: core::result::Result<
    (usize, usize),
    HeapAllocError,
>)
    requires
        old(heap).wf(old(pmm).spec_max_pfn()),
        old(pmm).wf(),
        forall|o: nat| o < 16 ==> old(pmm).split_in_range(o),
        physmap_fits(*old(pmm)),
        old(heap).fresh_for(*old(pmm)),
        layout_fits(layout),
    ensures
        final(heap).wf(final(pmm).spec_max_pfn()),
        final(pmm).wf(),
        final(pmm).spec_max_pfn() == old(pmm).spec_max_pfn(),
        r matches Ok((addr, len)) ==> len >= layout.spec_size(),
        ({
            let size = spec_effective_size(layout);
            let i = old(heap).spec_class_for(size);
            let order = spec_raw_page_order(size);
            &&& i < old(heap).spec_sizes().len() ==> {
                let c0 = old(heap).spec_classes()[i];
                &&& (r is Err <==> c0.spec_inner().spec_partial().len() == 0 && !has_block(
                    *old(pmm),
                    c0.spec_meta().spec_slab_order(),
                ))
                &&& r matches Ok((addr, len)) ==> len == old(heap).spec_sizes()[i] && exists|pfn: usize, index: int|
                    addr == #[trigger] obj_addr(c0.spec_meta(), pfn as int, index) && !c0.spec_inner().is_object(
                        c0.spec_meta(),
                        pfn,
                        index,
                    ) && final(heap).spec_classes()[i].spec_inner().is_object(c0.spec_meta(), pfn, index)
            }
            &&& i >= old(heap).spec_sizes().len() ==> {
                &&& (r is Err <==> !has_block(*old(pmm), order))
                &&& r matches Ok((addr, len)) ==> addr == physmap_addr(next_block(*old(pmm), order)@ as int)
                    && len == spec_block_bytes(order)
            }
        }),
{
    proof {
        layout.lemma_wf();
    }
    let size = get_effective_size(layout);
    let r = heap.allocate(size, pmm);
    proof {
        if let Ok((addr, len)) = r {
            let i = old(heap).spec_class_for(size);
            if i < old(heap).spec_sizes().len() {
                assert(len >= size) by {
                    lemma_first_class_value(old(heap).spec_sizes(), size, 0);
                }
            } else {
                lemma_block_bytes_covers(size);
                vstd::arithmetic::power2::lemma2_to64();
                assert(spec_block_bytes(spec_raw_page_order(size)) > 0) by {
                    vstd::arithmetic::power2::lemma_pow2_pos(spec_raw_page_order(size) as nat);
                }
            }
        }
    }
    r
}

/// The size picked for a request is at least the request.
proof fn lemma_first_class_value(sizes: Seq<usize>, size: usize, i: int)
    requires
        0 <= i,
        first_class_at_least(sizes, size, i) < sizes.len(),
    ensures
        sizes[first_class_at_least(sizes, size, i)] >= size,
    decreases sizes.len() - i,
{
    if i < sizes.len() && sizes[i] < size {
        lemma_first_class_value(sizes, size, i + 1);
    }
}

/// A block of the order picked for a request holds it, unless the block size does not fit in a
/// machine word.
proof fn lemma_block_bytes_covers(size: usize)
    requires
        size + PAGE_SIZE <= usize::MAX,
    ensures
        spec_block_bytes(spec_raw_page_order(size)) >= size || spec_block_bytes(
            spec_raw_page_order(size),
        ) == 0,
{
    let pages = (size + 4095) / 4096int;
    assert(pages * 4096 >= size) by (nonlinear_arith)
        requires
            pages == (size + 4095) / 4096int,
    ;
    let order = spec_raw_page_order(size);
    lemma_raw_page_order_small(size);
    if pages <= 1 {
        vstd::arithmetic::power2::lemma2_to64();
    } else {
        crate::num_utils::lemma_log2_bounds((pages - 1) as nat);
        assert(order == crate::num_utils::spec_log2((pages - 1) as nat) + 1);
        vstd::arithmetic::power2::lemma_pow2_unfold(order as nat);
        assert(pow2(order as nat) >= pages);
        if order < 52 {
            assert(pow2(order as nat) * 4096 >= pages * 4096) by (nonlinear_arith)
                requires
                    pow2(order as nat) >= pages,
            ;
        }
    }
}

/// Gives back the memory at `ptr`, allocated for `layout` from `heap`; see
/// [`Allocator::deallocate`].
pub fn deallocate(heap: &mut Allocator, pmm: &mut PhysManager, ptr: usize, layout: Layout)
    requires
        old(heap).wf(old(pmm).spec_max_pfn()),
        old(pmm).wf(),
        physmap_fits(*old(pmm)),
        layout_fits(layout),
        old(heap).is_live(*old(pmm), ptr, spec_effective_size(layout)),
    ensures
        final(heap).wf(final(pmm).spec_max_pfn()),
        final(heap).spec_sizes() == old(heap).spec_sizes(),
        final(pmm).wf(),
        final(pmm).spec_max_pfn() == old(pmm).spec_max_pfn(),
        final(pmm).spec_total_pages() == old(pmm).spec_total_pages(),
        ({
            let size = spec_effective_size(layout);
            let i = old(heap).spec_class_for(size);
            &&& i < old(heap).spec_sizes().len() ==> {
                let c0 = old(heap).spec_classes()[i];
                let c1 = final(heap).spec_classes()[i];
                &&& forall|j: int|
                    0 <= j < old(heap).spec_classes().len() && j != i ==> final(heap).spec_classes()[j]
                        == old(heap).spec_classes()[j]
                &&& exists|pfn: usize, index: int|
                    {
                        &&& ptr == #[trigger] obj_addr(c0.spec_meta(), pfn as int, index)
                        &&& c0.spec_inner().is_object(c0.spec_meta(), pfn, index)
                        &&& forall|p: usize, j: int|
                            c1.spec_inner().is_object(c0.spec_meta(), p, j) == (
                            c0.spec_inner().is_object(c0.spec_meta(), p, j) && (p != pfn || j != index))
                    }
            }
            &&& i >= old(heap).spec_sizes().len() ==> final(heap).spec_classes() == old(heap).spec_classes()
                && final(pmm).spec_free_pages() >= old(pmm).spec_free_pages() + pow2(
                spec_raw_page_order(size) as nat,
            )
        }),
{
    proof {
        layout.lemma_wf();
    }
    let size = get_effective_size(layout);
    heap.deallocate(ptr, size, pmm);
}

/// Resizes the memory at `ptr`, allocated for `old_layout` from `heap`, to hold `new_layout`. When
/// both layouts get the same number of bytes the memory stays where it is; otherwise new memory is
/// allocated, and the caller copies `copy_len` bytes into it and then gives the old memory back
/// with [`deallocate`].
///
/// Errors: those of [`allocate`], the old memory being left as it is.
pub fn resize(
    heap: &mut Allocator,
    pmm: &mut PhysManager,
    ptr: usize,
    old_layout: Layout,
    new_layout: Layout,
) -> (r: core::result::Result<Resized, HeapAllocError>)
    requires
        old(heap).wf(old(pmm).spec_max_pfn()),
        old(pmm).wf(),
        forall|o: nat| o < 16 ==> old(pmm).split_in_range(o),
        physmap_fits(*old(pmm)),
        old(heap).fresh_for(*old(pmm)),
        layout_fits(old_layout),
        layout_fits(new_layout),
    ensures
        final(heap).wf(final(pmm).spec_max_pfn()),
        final(pmm).wf(),
        final(pmm).spec_max_pfn() == old(pmm).spec_max_pfn(),
        ({
            let old_size = spec_effective_size(old_layout);
            let new_size = spec_effective_size(new_layout);
            let same = old(heap).spec_usable(old_size) == old(heap).spec_usable(new_size);
            &&& same ==> r == Ok::<Resized, HeapAllocError>(
                Resized::InPlace { len: old(heap).spec_usable(old_size) as usize },
            ) && *final(heap) == *old(heap) && *final(pmm) == *old(pmm)
            &&& !same ==> (r matches Ok(Resized::Moved { addr, len, copy_len }) ==> copy_len == if old_layout.spec_size()
                < new_layout.spec_size() {
                old_layout.spec_size()
            } else {
                new_layout.spec_size()
            } && (len >= new_layout.spec_size() || len == 0))
            &&& !same ==> !(r matches Ok(Resized::InPlace { .. }))
        }),
{
    proof {
        old_layout.lemma_wf();
        new_layout.lemma_wf();
    }
    let old_size = get_effective_size(old_layout);
    let new_size = get_effective_size(new_layout);
    let old_usable = heap.usable_size(old_size);
    let new_usable = heap.usable_size(new_size);
    if old_usable == new_usable {
        return Ok(Resized::InPlace { len: old_usable });
    }
    let (addr, len) = allocate(heap, pmm, new_layout)?;
    let copy_len = if old_layout.size() < new_layout.size() {
        old_layout.size()
    } else {
        new_layout.size()
    };
    Ok(Resized::Moved { addr, len, copy_len })
}

/// Handing out an object and then giving it back leaves the class holding the same objects as
/// before.
pub proof fn law_allocate_then_deallocate(
    meta: SizeClassMeta,
    c0: SizeClassInner,
    c1: SizeClassInner,
    c2: SizeClassInner,
    pfn: usize,
    index: int,
)
    requires
        !c0.is_object(meta, pfn, index),
        c1.is_object(meta, pfn, index),
        forall|p: usize, j: int| (p != pfn || j != index) ==> c1.is_object(meta, p, j) == c0.is_object(meta, p, j),
        forall|p: usize, j: int| c2.is_object(meta, p, j) == (c1.is_object(meta, p, j) && (p != pfn || j != index)),
    ensures
        forall|p: usize, j: int| c2.is_object(meta, p, j) == c0.is_object(meta, p, j),
{
    assert forall|p: usize, j: int| c2.is_object(meta, p, j) == c0.is_object(meta, p, j) by {
        if p != pfn || j != index {
            assert(c1.is_object(meta, p, j) == c0.is_object(meta, p, j));
        }
    }
}

} // verus!
