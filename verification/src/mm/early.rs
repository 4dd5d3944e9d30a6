//! Early boot memory support: the kernel image's placement, the identity-mapping translator used
//! before the physmap exists, and a mapper that identity-maps small regions during boot.
use vstd::prelude::*;
use core::ops::Range;
use arrayvec::ArrayVec;
use crate::arch::max_pte_frame;
use crate::err::{Error, Result};
use super::pt::{
    lemma_boundary_above, lemma_mapped_walk_aligned, mapping_ready, spec_lookup, spec_table_boundary,
    GatherInvalidations, MappingPointer, NoopGather, PageTable, PageTableAlloc, PageTableMemory,
    TranslatePhys,
};
use super::types::{CacheMode, PageTablePerms, PhysFrameNum, VirtPageNum, PERMS_READ, PERMS_WRITE};

verus! {

/// Where the kernel image lives in physical memory and where it is mapped.
#[derive(Clone, Copy, Debug, PartialEq, Eq, Structural)]
pub struct KernelImage {
    pub phys_base: PhysFrameNum,
    pub virt_base: VirtPageNum,
    pub total_pages: usize,
}

impl KernelImage {
    /// The image's frames and pages fit in the address space.
    pub open spec fn wf(self) -> bool {
        &&& self.phys_base@ + self.total_pages <= usize::MAX
        &&& self.virt_base@ + self.total_pages <= usize::MAX
    }

    /// Whether frame `pfn` belongs to the image.
    pub open spec fn spec_contains_phys(self, pfn: PhysFrameNum) -> bool {
        self.phys_base@ <= pfn@ < self.phys_base@ + self.total_pages
    }

    /// Whether frame `pfn` belongs to the image.
    pub fn contains_phys(&self, pfn: PhysFrameNum) -> (r: bool)
        requires
            self.wf(),
        ensures
            r == self.spec_contains_phys(pfn),
    {
        self.phys_base.as_usize() <= pfn.as_usize() && pfn.as_usize() < self.phys_base.as_usize()
            + self.total_pages
    }

    /// The page at which frame `pfn` of the image is mapped.
    pub fn vpn_from_kernel_pfn(&self, pfn: PhysFrameNum) -> (r: VirtPageNum)
        requires
            self.wf(),
            self.spec_contains_phys(pfn),
        ensures
            r@ == self.virt_base@ + (pfn@ - self.phys_base@),
    {
        self.virt_base.plus(pfn.diff(self.phys_base))
    }

    /// The frame of the image mapped at page `vpn`.
    pub fn pfn_from_kernel_vpn(&self, vpn: VirtPageNum) -> (r: PhysFrameNum)
        requires
            self.wf(),
            self.virt_base@ <= vpn@ < self.virt_base@ + self.total_pages,
        ensures
            r@ == self.phys_base@ + (vpn@ - self.virt_base@),
    {
        self.phys_base.plus(vpn.diff(self.virt_base))
    }

    /// The frames occupied by the image.
    pub fn phys_range(&self) -> (r: Range<PhysFrameNum>)
        requires
            self.wf(),
        ensures
            r.start@ == self.phys_base@,
            r.end@ == self.phys_base@ + self.total_pages,
    {
        self.phys_base..self.phys_base.plus(self.total_pages)
    }
}

/// Translates frames during early boot: frames of the kernel image to their mapping in the image,
/// and any other frame in the identity-mapped range to the page of the same number.
pub struct EarlyMapPfnTranslator {
    identity: Range<PhysFrameNum>,
    kimage: KernelImage,
}

impl EarlyMapPfnTranslator {
    /// Creates a translator for the identity-mapped frames `phys_range`, with the kernel image
    /// placed as `kimage` describes.
    pub fn new(phys_range: Range<PhysFrameNum>, kimage: KernelImage) -> (r: Self)
        ensures
            r.spec_identity() == phys_range,
            r.spec_kimage() == kimage,
    {
        Self { identity: phys_range, kimage }
    }

    /// The identity-mapped frames.
    pub closed spec fn spec_identity(&self) -> Range<PhysFrameNum> {
        self.identity
    }

    /// The kernel image.
    pub closed spec fn spec_kimage(&self) -> KernelImage {
        self.kimage
    }
}

impl TranslatePhys for EarlyMapPfnTranslator {
    open spec fn covers(&self, phys: PhysFrameNum) -> bool {
        &&& self.spec_kimage().wf()
        &&& (self.spec_kimage().spec_contains_phys(phys) || self.spec_identity().start@ <= phys@
            < self.spec_identity().end@)
    }

    open spec fn spec_translate(&self, phys: PhysFrameNum) -> VirtPageNum {
        if self.spec_kimage().spec_contains_phys(phys) {
            VirtPageNum::spec_new(
                (self.spec_kimage().virt_base@ + (phys@ - self.spec_kimage().phys_base@)) as usize,
            )
        } else {
            VirtPageNum::spec_new(phys@)
        }
    }

    fn translate(&self, phys: PhysFrameNum) -> (r: VirtPageNum) {
        if self.kimage.contains_phys(phys) {
            let r = self.kimage.vpn_from_kernel_pfn(phys);
            proof {
                VirtPageNum::lemma_spec_new(r);
            }
            return r;
        }
        let r = VirtPageNum::new(phys.as_usize());
        proof {
            VirtPageNum::lemma_spec_new(r);
        }
        r
    }
}

/// Hands out consecutive frames from a fixed range as page tables.
pub struct BumpPageTableAlloc {
    cur: PhysFrameNum,
    end: PhysFrameNum,
}

impl BumpPageTableAlloc {
    /// Creates an allocator handing out the frames `start..end`.
    pub fn new(start: PhysFrameNum, end: PhysFrameNum) -> (r: Self)
        ensures
            r.spec_cur() == start@,
            r.spec_end() == end@,
    {
        Self { cur: start, end }
    }

    /// The next frame to hand out.
    pub closed spec fn spec_cur(&self) -> usize {
        self.cur@
    }

    /// The end of the range.
    pub closed spec fn spec_end(&self) -> usize {
        self.end@
    }

    /// Hands out the next frame, or reports `OutOfMemory` once the range is used up.
    pub fn allocate_frame(&mut self) -> (r: Result<PhysFrameNum>)
        ensures
            old(self).spec_cur() >= old(self).spec_end() ==> r == Err::<PhysFrameNum, Error>(
                Error::OutOfMemory,
            ) && final(self).spec_cur() == old(self).spec_cur(),
            old(self).spec_cur() < old(self).spec_end() ==> (r matches Ok(pfn) && pfn@ == old(
                self,
            ).spec_cur()) && final(self).spec_cur() == old(self).spec_cur() + 1,
            final(self).spec_end() == old(self).spec_end(),
    {
        if self.cur.as_usize() >= self.end.as_usize() {
            return Err(Error::OutOfMemory);
        }
        let ret = self.cur;
        self.cur = self.cur.plus(1);
        Ok(ret)
    }
}

impl PageTableAlloc for BumpPageTableAlloc {
    /// The allocator can always be asked for a table; it reports exhaustion as an error.
    open spec fn ready(&self) -> bool {
        true
    }

    /// The frames not yet handed out.
    open spec fn may_hand_out(&self, frame: usize) -> bool {
        self.spec_cur() <= frame < self.spec_end()
    }

    /// Each frame of the range is handed out once.
    open spec fn hands_out_fresh(&self) -> bool {
        true
    }

    /// The end of the range; the cursor moves towards it.
    open spec fn bounds(&self) -> (int, int) {
        (0, self.spec_end() as int)
    }

    /// The frames of the range not yet handed out.
    open spec fn available(&self) -> nat {
        if self.spec_cur() < self.spec_end() {
            (self.spec_end() - self.spec_cur()) as nat
        } else {
            0
        }
    }

    fn allocate(&mut self) -> (r: Result<PhysFrameNum>) {
        self.allocate_frame()
    }
}

/// A region identity-mapped by an [`EarlyMapper`].
#[derive(Clone, Copy, Debug, PartialEq, Eq, Structural)]
pub struct EarlyMapperSlot {
    pub base: PhysFrameNum,
    pub pages: usize,
}

/// The most regions an [`EarlyMapper`] can keep mapped at once.
pub const EARLY_MAP_MAX_SLOTS: usize = 5;

/// The regions mapped by an early mapper, from `arrayvec`'s fixed-capacity vector.
pub uninterp spec fn early_map_slots(v: ArrayVec<EarlyMapperSlot, 5>) -> Seq<EarlyMapperSlot>;

/// Creates an empty vector (`ArrayVec::new`).
#[verifier::external_body]
fn slots_new() -> (r: ArrayVec<EarlyMapperSlot, 5>)
    ensures
        early_map_slots(r) == Seq::<EarlyMapperSlot>::empty(),
{
    ArrayVec::new()
}

/// Appends `slot` (`ArrayVec::push`, which panics when the vector is full).
#[verifier::external_body]
fn slots_push(v: &mut ArrayVec<EarlyMapperSlot, 5>, slot: EarlyMapperSlot)
    requires
        early_map_slots(*old(v)).len() < 5,
    ensures
        early_map_slots(*final(v)) == early_map_slots(*old(v)).push(slot),
{
    v.push(slot)
}

/// The number of regions held (`ArrayVec::len`), which never exceeds the capacity.
#[verifier::external_body]
fn slots_len(v: &ArrayVec<EarlyMapperSlot, 5>) -> (r: usize)
    ensures
        r == early_map_slots(*v).len(),
        r <= 5,
{
    v.len()
}

/// The regions held, in order (`ArrayVec::as_slice`).
#[verifier::external_body]
fn slots_as_slice(v: &ArrayVec<EarlyMapperSlot, 5>) -> (r: &[EarlyMapperSlot])
    ensures
        r@ == early_map_slots(*v),
{
    v.as_slice()
}

/// Identity-maps regions of physical memory during boot, before the physmap exists, allocating
/// any page tables it needs from a fixed range of frames.
pub struct EarlyMapper {
    slots: ArrayVec<EarlyMapperSlot, 5>,
    pt: PageTable,
    alloc: BumpPageTableAlloc,
}

impl EarlyMapper {
    /// The regions mapped so far.
    pub closed spec fn spec_slots(&self) -> Seq<EarlyMapperSlot> {
        early_map_slots(self.slots)
    }

    /// The frame of the root page table.
    pub closed spec fn spec_root(&self) -> usize {
        self.pt.spec_root()
    }

    /// The allocator that page tables are taken from.
    pub closed spec fn spec_alloc(&self) -> BumpPageTableAlloc {
        self.alloc
    }

    /// Whether regions mapped into `mem` are found where they were put (see [`mapping_ready`]).
    pub open spec fn maps_into(&self, mem: PageTableMemory) -> bool {
        mapping_ready(mem, self.spec_root(), self.spec_alloc())
    }

    /// Creates a mapper for the page table rooted at `root`, taking page tables from `alloc`.
    pub fn new(root: PhysFrameNum, alloc: BumpPageTableAlloc) -> (r: Self)
        ensures
            r.spec_slots() == Seq::<EarlyMapperSlot>::empty(),
            r.spec_root() == root@,
            r.spec_alloc() == alloc,
    {
        Self { slots: slots_new(), pt: PageTable::new(root), alloc }
    }

    /// Identity-maps the `pages` frames from `base` readable and writable, records the region so
    /// that it can be unmapped again, and returns the page at which it is mapped.
    ///
    /// Errors: those of [`PageTable::map`]; nothing is recorded then.
    pub fn map(&mut self, mem: &mut PageTableMemory, base: PhysFrameNum, pages: usize) -> (r:
        Result<VirtPageNum>)
        requires
            old(self).spec_slots().len() < EARLY_MAP_MAX_SLOTS,
            base@ + pages + pages <= usize::MAX,
        ensures
            r matches Ok(vpn) ==> vpn@ == base@ && final(self).spec_slots() == old(
                self,
            ).spec_slots().push(EarlyMapperSlot { base, pages }),
            r is Err ==> final(self).spec_slots() == old(self).spec_slots(),
            final(self).spec_root() == old(self).spec_root(),
            old(self).maps_into(*old(mem)) && base@ + pages <= max_pte_frame() ==> {
                &&& final(self).maps_into(*final(mem))
                &&& r is Ok ==> forall|vpn: usize|
                    base@ <= vpn < base@ + pages && vpn < spec_table_boundary(base@ as int, 3)
                        ==> #[trigger] spec_lookup(*final(mem), old(self).spec_root(), 3, vpn)
                        == Some(vpn as int)
                &&& forall|vpn: usize|
                    #![trigger spec_lookup(*final(mem), old(self).spec_root(), 3, vpn)]
                    spec_lookup(*old(mem), old(self).spec_root(), 3, vpn) is Some ==> spec_lookup(
                        *final(mem),
                        old(self).spec_root(),
                        3,
                        vpn,
                    ) == spec_lookup(*old(mem), old(self).spec_root(), 3, vpn)
            },
    {
        let virt = VirtPageNum::new(base.as_usize());
        let mut pointer = MappingPointer::new(virt, pages);
        self.pt.map(
            mem,
            &mut self.alloc,
            &mut pointer,
            base,
            PageTablePerms::from_bits(PERMS_READ | PERMS_WRITE),
            CacheMode::Cached,
        )?;
        slots_push(&mut self.slots, EarlyMapperSlot { base, pages });
        Ok(virt)
    }

    /// Unmaps every region recorded by [`map`](EarlyMapper::map), in the order they were mapped.
    /// The caller must flush the TLB afterwards.
    ///
    /// On success the first page of every region is no longer mapped: a region whose first page
    /// is still mapped when its turn comes is unmapped from that page on (see
    /// [`PageTable::unmap`]), and unmapping never maps a page again.
    ///
    /// Errors: those of [`PageTable::unmap`]; the remaining regions are left mapped.
    pub fn unmap_all(&mut self, mem: &mut PageTableMemory) -> (r: Result<()>)
        requires
            forall|i: int|
                0 <= i < old(self).spec_slots().len() ==> (#[trigger] old(self).spec_slots()[i]).base@
                    + old(self).spec_slots()[i].pages + 0x800_0000 <= usize::MAX,
        ensures
            final(self).spec_root() == old(self).spec_root(),
            forall|vpn: usize|
                #[trigger] spec_lookup(*final(mem), old(self).spec_root(), 3, vpn) is None || spec_lookup(
                    *final(mem),
                    old(self).spec_root(),
                    3,
                    vpn,
                ) == spec_lookup(*old(mem), old(self).spec_root(), 3, vpn),
            r is Ok ==> forall|i: int|
                0 <= i < old(self).spec_slots().len() && (#[trigger] old(self).spec_slots()[i]).pages > 0
                    ==> spec_lookup(*final(mem), old(self).spec_root(), 3, old(self).spec_slots()[i].base@)
                    is None,
    {
        let ghost mem0 = *mem;
        let ghost root = self.pt.spec_root();
        let slots = slots_as_slice(&self.slots);
        let n = slots_len(&self.slots);
        assert(self.slots == old(self).slots);
        assert(slots@ == old(self).spec_slots());
        let mut i: usize = 0;
        while i < n
            invariant
                i <= n,
                n == slots@.len(),
                forall|j: int|
                    0 <= j < slots@.len() ==> (#[trigger] slots@[j]).base@ + slots@[j].pages
                        + 0x800_0000 <= usize::MAX,
                self.pt.spec_root() == root,
                root == old(self).spec_root(),
                mem0 == *old(mem),
                forall|vpn: usize|
                    #[trigger] spec_lookup(*mem, root, 3, vpn) is None || spec_lookup(*mem, root, 3, vpn)
                        == spec_lookup(mem0, root, 3, vpn),
                forall|j: int|
                    0 <= j < i && (#[trigger] slots@[j]).pages > 0 ==> spec_lookup(*mem, root, 3, slots@[j].base@)
                        is None,
            decreases n - i,
        {
            let slot = slots[i];
            let mut pointer = MappingPointer::new(VirtPageNum::new(slot.base.as_usize()), slot.pages);
            let ghost before = *mem;
            let r = self.pt.unmap(mem, &mut NoopGather, &mut pointer);
            proof {
                assert forall|vpn: usize|
                    #[trigger] spec_lookup(*mem, root, 3, vpn) is None || spec_lookup(*mem, root, 3, vpn)
                        == spec_lookup(mem0, root, 3, vpn) by {
                    assert(spec_lookup(*mem, root, 3, vpn) is None || spec_lookup(*mem, root, 3, vpn)
                        == spec_lookup(before, root, 3, vpn));
                    assert(spec_lookup(before, root, 3, vpn) is None || spec_lookup(before, root, 3, vpn)
                        == spec_lookup(mem0, root, 3, vpn));
                }
            }
            proof {
                if r is Ok {
                    assert forall|j: int|
                        0 <= j < i + 1 && (#[trigger] slots@[j]).pages > 0 implies spec_lookup(
                            *mem,
                            root,
                            3,
                            slots@[j].base@,
                        ) is None by {
                        let b = slots@[j].base@;
                        assert(spec_lookup(*mem, root, 3, b) is None || spec_lookup(*mem, root, 3, b)
                            == spec_lookup(before, root, 3, b));
                        if j == i && spec_lookup(before, root, 3, b) is Some {
                            lemma_mapped_walk_aligned(before, root, 3, b);
                            lemma_boundary_above(b as int, 3);
                        }
                    }
                }
            }
            r?;
            i = i + 1;
        }
        Ok(())
    }
}

} // verus!
