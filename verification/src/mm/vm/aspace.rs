//! Address spaces: a tree of slices and mappings over a page table, with fault handling and
//! committing of mapped pages.
use vstd::prelude::*;
use arrayvec::{ArrayVec, CapacityError};
use crate::err::{Error, Result};
use crate::mm::pmm::PhysManager;
use crate::arch::{law_perm_bits, lemma_masked_perm_bits, max_pte_frame, spec_perm_bits};
use crate::mm::pt::{
    first_walk_aligned, lemma_boundary_above, lemma_cleared_is_update, spec_table_boundary, lemma_lookup_after_clear, lemma_ready_with_fewer_frames,
    mapped_as, mapping_ready, spec_lookup, spec_lookup_entry, spec_perm_mask, GatherInvalidations, MappingPointer, PageTable, PageTableMemory,
};
use crate::mm::types::{
    AccessType, CacheMode, PageTablePerms, PhysFrameNum, Protection, VirtPageNum, PERMS_EXECUTE,
    PERMS_READ, PERMS_WRITE,
};
use super::object::{AnyVmObject, CommitType, VmObject};
use super::tree::{
    below, lemma_reaches_same_from, reaches, child_inserted, count_starting_at_or_before, spec_dynamic_error, lemma_inserted_mapping_found, placed, spec_fixed_error, NewChild, SliceChild, SliceChildNode, SliceTree,
    Slice, SPACE_MARGIN,
};
use crate::num_utils::{align_down, align_up};

verus! {

/// A request to flush pages from the TLB.
#[derive(Debug, PartialEq, Eq)]
pub enum TlbFlush {
    /// Flush only these pages.
    Specific(Vec<VirtPageNum>),
    /// Flush the entire TLB.
    All,
}

/// Constraints on the first page of a new subslice or mapping.
#[derive(Clone, Copy, Debug, PartialEq, Eq, Structural)]
pub enum MapBase {
    /// The child must start at this page.
    Fixed(VirtPageNum),
    /// The child must start at a page aligned to `1 << align_order`.
    Aligned { align_order: usize },
}

impl MapBase {
    /// A base that places no constraint on the first page.
    pub fn any() -> (r: Self)
        ensures
            r == (MapBase::Aligned { align_order: 0 }),
    {
        MapBase::Aligned { align_order: 0 }
    }

    /// The page at which the child must start, if fixed.
    pub fn fixed_start(&self) -> (r: Option<VirtPageNum>)
        ensures
            r == spec_fixed_start(*self),
    {
        match self {
            MapBase::Fixed(vpn) => Some(*vpn),
            MapBase::Aligned { .. } => None,
        }
    }
}

/// The page at which a child placed with `base` must start, if fixed.
pub open spec fn spec_fixed_start(base: MapBase) -> Option<VirtPageNum> {
    match base {
        MapBase::Fixed(vpn) => Some(vpn),
        MapBase::Aligned { .. } => None,
    }
}

/// The low-level page table facts that an address space needs.
pub trait AddrSpaceOps {
    /// The root page table.
    spec fn spec_root_pt(&self) -> PhysFrameNum;

    /// The permissions that every page of the address space gets.
    spec fn spec_base_perms(&self) -> PageTablePerms;

    /// The root page table.
    fn root_pt(&self) -> (r: PhysFrameNum)
        ensures
            r == self.spec_root_pt(),
    ;

    /// The permissions that every page of the address space gets.
    fn base_perms(&self) -> (r: PageTablePerms)
        ensures
            r == self.spec_base_perms(),
    ;
}

/// The commit type for a fault caused by an access of `access_type`.
pub fn get_commit_type(access_type: AccessType) -> (r: CommitType)
    ensures
        r == (if access_type == AccessType::Write {
            CommitType::Write
        } else {
            CommitType::Read
        }),
{
    match access_type {
        AccessType::Read | AccessType::Execute => CommitType::Read,
        AccessType::Write => CommitType::Write,
    }
}

/// Whether an access of `access_type` is allowed under `prot`.
pub fn access_allowed(access_type: AccessType, prot: Protection) -> (r: bool)
    ensures
        r == spec_access_allowed(access_type, prot),
{
    match access_type {
        AccessType::Read => prot.read,
        AccessType::Write => prot.write,
        AccessType::Execute => prot.execute,
    }
}

/// Whether an access of `access_type` is allowed under `prot`.
pub open spec fn spec_access_allowed(access_type: AccessType, prot: Protection) -> bool {
    match access_type {
        AccessType::Read => prot.read,
        AccessType::Write => prot.write,
        AccessType::Execute => prot.execute,
    }
}

/// The most pages flushed one by one; past this, the whole TLB is flushed.
pub const MAX_PAGE_INVALIDATIONS: usize = 10;

/// The pages held by a vector of pending invalidations.
pub uninterp spec fn pending_pages(v: ArrayVec<VirtPageNum, 10>) -> Seq<VirtPageNum>;

/// Creates an empty vector (`ArrayVec::new`).
#[verifier::external_body]
fn pages_new() -> (r: ArrayVec<VirtPageNum, 10>)
    ensures
        pending_pages(r) == Seq::<VirtPageNum>::empty(),
{
    ArrayVec::new()
}

/// Appends `vpn` when there is room (`ArrayVec::try_push`): the page is appended when fewer than
/// ten are held, and otherwise handed back in the error, the vector staying as it was.
#[verifier::external_body]
fn pages_try_push(v: &mut ArrayVec<VirtPageNum, 10>, vpn: VirtPageNum) -> (r: core::result::Result<
    (),
    CapacityError<VirtPageNum>,
>)
    ensures
        pending_pages(*old(v)).len() < 10 ==> r is Ok && pending_pages(*final(v)) == pending_pages(
            *old(v),
        ).push(vpn),
        pending_pages(*old(v)).len() >= 10 ==> r is Err && pending_pages(*final(v)) == pending_pages(
            *old(v),
        ),
{
    v.try_push(vpn)
}

/// The pages held, in order (`ArrayVec::as_slice`).
#[verifier::external_body]
fn pages_as_slice(v: &ArrayVec<VirtPageNum, 10>) -> (r: &[VirtPageNum])
    ensures
        r@ == pending_pages(*v),
{
    v.as_slice()
}

/// The TLB invalidations gathered while changing mappings: single pages, until there are too many
/// of them to flush one by one.
pub enum PendingInvalidationGather {
    Specific(ArrayVec<VirtPageNum, 10>),
    All,
}

impl PendingInvalidationGather {
    /// The pages to flush one by one, or `None` when the whole TLB must be flushed.
    pub open spec fn spec_pages(&self) -> Option<Seq<VirtPageNum>> {
        match self {
            PendingInvalidationGather::Specific(v) => Some(pending_pages(*v)),
            PendingInvalidationGather::All => None,
        }
    }

    /// Gathers nothing yet.
    pub fn new() -> (r: Self)
        ensures
            r.spec_pages() == Some(Seq::<VirtPageNum>::empty()),
    {
        PendingInvalidationGather::Specific(pages_new())
    }

    /// The flush request that covers the gathered invalidations.
    pub fn as_tlb_flush(&self) -> (r: TlbFlush)
        ensures
            self.spec_pages() matches Some(pages) ==> (r matches TlbFlush::Specific(v) && v@ == pages),
            self.spec_pages() is None ==> r == TlbFlush::All,
    {
        match self {
            PendingInvalidationGather::Specific(pages) => {
                let slice = pages_as_slice(pages);
                let mut v: Vec<VirtPageNum> = Vec::new();
                let mut i: usize = 0;
                while i < slice.len()
                    invariant
                        i <= slice@.len(),
                        v@ == slice@.take(i as int),
                    decreases slice@.len() - i,
                {
                    v.push(slice[i]);
                    proof {
                        assert(slice@.take(i + 1) =~= slice@.take(i as int).push(slice@[i as int]));
                    }
                    i = i + 1;
                }
                proof {
                    assert(slice@.take(slice@.len() as int) =~= slice@);
                }
                TlbFlush::Specific(v)
            },
            PendingInvalidationGather::All => TlbFlush::All,
        }
    }
}

impl GatherInvalidations for PendingInvalidationGather {
    /// Adds `vpn` to the pages to flush, falling back to a full flush once there are too many.
    fn add_tlb_flush(&mut self, vpn: VirtPageNum)
        ensures
            old(self).spec_pages() matches Some(pages) ==> if pages.len() < 10 {
                final(self).spec_pages() == Some(pages.push(vpn))
            } else {
                final(self).spec_pages() is None
            },
            old(self).spec_pages() is None ==> final(self).spec_pages() is None,
    {
        let full = match self {
            PendingInvalidationGather::Specific(pages) => pages_try_push(pages, vpn).is_err(),
            PendingInvalidationGather::All => false,
        };
        if full {
            *self = PendingInvalidationGather::All;
        }
    }
}

/// Page table permissions for the address space with base permissions `base`: the base ones,
/// with read, write and execute taken from `prot`.
pub open spec fn spec_perms_for_prot(base: PageTablePerms, prot: Protection) -> u8 {
    let b0 = base@;
    let b1 = if prot.read { b0 | PERMS_READ } else { b0 & !PERMS_READ };
    let b2 = if prot.write { b1 | PERMS_WRITE } else { b1 & !PERMS_WRITE };
    if prot.execute { b2 | PERMS_EXECUTE } else { b2 & !PERMS_EXECUTE }
}

/// Setting or clearing flag `f` of `x` (one of the read, write and execute flags) decides that
/// flag and leaves every other bit alone.
proof fn lemma_flag_update(x: u8, f: u8, g: u8)
    requires
        f == 1 || f == 2 || f == 4,
        g == 1 || g == 2 || g == 4,
        f != g,
    ensures
        (x | f) & f != 0,
        (x & !f) & f == 0,
        (x | f) & g == x & g,
        (x & !f) & g == x & g,
        (x | f) & !7u8 == x & !7u8,
        (x & !f) & !7u8 == x & !7u8,
{
    assert((f == 1 || f == 2 || f == 4) && (g == 1 || g == 2 || g == 4) && f != g ==> {
        &&& (x | f) & f != 0
        &&& (x & !f) & f == 0
        &&& (x | f) & g == x & g
        &&& (x & !f) & g == x & g
        &&& (x | f) & !7u8 == x & !7u8
        &&& (x & !f) & !7u8 == x & !7u8
    }) by (bit_vector);
}

/// The permissions that pages mapped with `prot` get: readable (flag 0x1) exactly when `prot`
/// allows reading, writable (flag 0x2) exactly when it allows writing, executable (flag 0x4)
/// exactly when it allows execution, and every other flag (user, global) as in `base`.
pub proof fn law_perms_for_prot(base: PageTablePerms, prot: Protection)
    ensures
        (spec_perms_for_prot(base, prot) & 0x1u8 != 0) == prot.read,
        (spec_perms_for_prot(base, prot) & 0x2u8 != 0) == prot.write,
        (spec_perms_for_prot(base, prot) & 0x4u8 != 0) == prot.execute,
        spec_perms_for_prot(base, prot) & !7u8 == base@ & !7u8,
{
    let b0 = base@;
    let b1 = if prot.read { b0 | 1u8 } else { b0 & !1u8 };
    let b2 = if prot.write { b1 | 2u8 } else { b1 & !2u8 };
    let b3 = if prot.execute { b2 | 4u8 } else { b2 & !4u8 };
    assert(spec_perms_for_prot(base, prot) == b3);
    lemma_flag_update(b0, 1, 2);
    lemma_flag_update(b1, 2, 1);
    lemma_flag_update(b2, 4, 1);
    lemma_flag_update(b2, 4, 2);
}

/// Whether page table entry `e` grants what a page mapped with `prot` in an address space whose
/// pages get `base` permissions must have: writable (bit 1) exactly when `prot` allows writing,
/// no-execute (bit 63) exactly when it forbids execution, and user-accessible (bit 2) and global
/// (bit 8) exactly when `base` has the user (0x8) and global (0x10) flags. Reading needs no bit: a
/// present entry can be read.
pub open spec fn entry_grants(e: u64, base: PageTablePerms, prot: Protection) -> bool {
    &&& (e & 0x2u64 != 0) == prot.write
    &&& (e & 0x8000_0000_0000_0000u64 != 0) == !prot.execute
    &&& (e & 0x4u64 != 0) == (base@ & 0x8u8 != 0)
    &&& (e & 0x100u64 != 0) == (base@ & 0x10u8 != 0)
}

/// Whether page `vpn` is mapped in the page table rooted at `root` in `mem` by an entry that
/// grants what `prot` and `base` call for ([`entry_grants`]).
pub open spec fn page_grants(mem: PageTableMemory, root: usize, vpn: int, base: PageTablePerms, prot: Protection) -> bool {
    spec_lookup_entry(mem, root, 3, vpn as usize) matches Some(e) && entry_grants(e, base, prot)
}

/// An entry carrying the permission bits of the permissions made for `prot` from `base` grants
/// what they call for.
proof fn lemma_entry_grants(e: u64, perms: PageTablePerms, base: PageTablePerms, prot: Protection)
    requires
        e & spec_perm_mask() == spec_perm_bits(perms),
        perms@ == spec_perms_for_prot(base, prot),
    ensures
        entry_grants(e, base, prot),
{
    law_perm_bits(perms);
    law_perms_for_prot(base, prot);
    lemma_masked_perm_bits(e, spec_perm_bits(perms));
    let a = perms@;
    let b = base@;
    assert(a & !7u8 == b & !7u8 ==> (a & 8u8 != 0) == (b & 8u8 != 0) && (a & 0x10u8 != 0) == (b & 0x10u8
        != 0)) by (bit_vector);
}

/// The page table permissions of pages mapped with `prot` in an address space whose pages get
/// `base` permissions.
pub fn perms_for_prot(base: PageTablePerms, prot: Protection) -> (r: PageTablePerms)
    ensures
        r@ == spec_perms_for_prot(base, prot),
        (r@ & 0x1u8 != 0) == prot.read,
        (r@ & 0x2u8 != 0) == prot.write,
        (r@ & 0x4u8 != 0) == prot.execute,
        r@ & !7u8 == base@ & !7u8,
{
    proof {
        law_perms_for_prot(base, prot);
    }
    let mut perms = base;
    perms.set(PERMS_READ, prot.read);
    perms.set(PERMS_WRITE, prot.write);
    perms.set(PERMS_EXECUTE, prot.execute);
    perms
}

/// A handle to a slice of an address space.
#[derive(Clone, Copy, Debug, PartialEq, Eq, Structural)]
pub struct SliceHandle {
    pub index: usize,
    pub start: VirtPageNum,
    pub page_count: usize,
}

impl SliceHandle {
    /// The first page of the slice.
    pub fn start(&self) -> (r: VirtPageNum)
        ensures
            r == self.start,
    {
        self.start
    }

    /// The page just past the slice.
    pub fn end(&self) -> (r: VirtPageNum)
        requires
            self.start@ + self.page_count <= usize::MAX,
        ensures
            r@ == self.start@ + self.page_count,
    {
        self.start.plus(self.page_count)
    }

    /// The number of pages of the slice.
    pub fn page_count(&self) -> (r: usize)
        ensures
            r == self.page_count,
    {
        self.page_count
    }
}

/// A handle to a mapping of a VM object in an address space.
#[derive(Clone, Copy, Debug, PartialEq, Eq, Structural)]
pub struct MappingHandle {
    pub index: usize,
    pub start: VirtPageNum,
    pub page_count: usize,
    pub object_offset: usize,
    pub object: usize,
}

impl MappingHandle {
    /// The first page of the mapping.
    pub fn start(&self) -> (r: VirtPageNum)
        ensures
            r == self.start,
    {
        self.start
    }

    /// The page just past the mapping.
    pub fn end(&self) -> (r: VirtPageNum)
        requires
            self.start@ + self.page_count <= usize::MAX,
        ensures
            r@ == self.start@ + self.page_count,
    {
        self.start.plus(self.page_count)
    }

    /// The number of pages of the mapping.
    pub fn page_count(&self) -> (r: usize)
        ensures
            r == self.page_count,
    {
        self.page_count
    }

    /// The offset, in pages, of the mapping's start in its object.
    pub fn object_offset(&self) -> (r: usize)
        ensures
            r == self.object_offset,
    {
        self.object_offset
    }

    /// The mapped object, by index in its address space.
    pub fn object(&self) -> (r: usize)
        ensures
            r == self.object,
    {
        self.object
    }
}

/// Whether page `vpn` of the page table rooted at `root` in `mem` maps `frame`, where that is a
/// frame that fits in an entry.
pub open spec fn maps_frame(mem: PageTableMemory, root: usize, vpn: int, frame: Option<PhysFrameNum>) -> bool {
    match frame {
        Some(f) => f@ < max_pte_frame() ==> spec_lookup(mem, root, 3, vpn as usize) == Some(f@ as int),
        None => true,
    }
}

/// What handling a fault on page `vpn` by an access of `access_type` does, taking address space
/// `a0` to `a1`, frame allocator `p0` to `p1` and page table memory `m0` to `m1` with result `r`
/// (see [`AddrSpace::fault`]).
pub open spec fn fault_outcome<O: AddrSpaceOps>(
    a0: AddrSpace<O>,
    a1: AddrSpace<O>,
    p0: PhysManager,
    p1: PhysManager,
    m0: PageTableMemory,
    m1: PageTableMemory,
    vpn: VirtPageNum,
    access_type: AccessType,
    r: Result<()>,
) -> bool {
    let root = a0.spec_ops().spec_root_pt()@;
    &&& a1.spec_tree() == a0.spec_tree()
    &&& a1.spec_ops() == a0.spec_ops()
    &&& a0.fault_error(vpn, access_type) matches Some(e) ==> r == Err::<(), Error>(e)
    &&& a0.fault_error(vpn, access_type) is None && a0.fault_fits(p0, m0, vpn) ==> r is Ok
    &&& a0.spec_tree().spec_get_mapping(0, vpn@) matches Ok(m) ==> {
        let mapping = a0.spec_tree().mappings@[m as int];
        &&& r is Ok ==> a1.spec_objects()[mapping.object as int].spec_frame(
            mapping.object_offset + (vpn@ - mapping.start@),
        ) is Some
        &&& r is Ok && mapping_ready(m0, root, p0) ==> maps_frame(
            m1,
            root,
            vpn@ as int,
            a1.spec_objects()[mapping.object as int].spec_frame(mapping.object_offset + (vpn@ - mapping.start@)),
        )
        &&& r is Ok && mapping_ready(m0, root, p0) ==> page_grants(
            m1,
            root,
            vpn@ as int,
            a0.spec_ops().spec_base_perms(),
            mapping.inner->Some_0.prot,
        )
    }
    &&& mapping_ready(m0, root, p0) ==> {
        &&& mapping_ready(m1, root, p1)
        &&& forall|v: usize|
            #![trigger spec_lookup(m1, root, 3, v)]
            spec_lookup(m0, root, 3, v) is Some ==> spec_lookup(m1, root, 3, v) == spec_lookup(m0, root, 3, v)
    }
}

/// An address space: a tree of slices and mappings of VM objects over a page table.
pub struct AddrSpace<O: AddrSpaceOps> {
    tree: SliceTree,
    objects: Vec<AnyVmObject>,
    ops: O,
}

impl<O: AddrSpaceOps> AddrSpace<O> {
    /// The slices and mappings; slice 0 is the root.
    pub closed spec fn spec_tree(&self) -> SliceTree {
        self.tree
    }

    /// The VM objects that mappings refer to.
    pub closed spec fn spec_objects(&self) -> Seq<AnyVmObject> {
        self.objects@
    }

    /// The page table operations.
    pub closed spec fn spec_ops(&self) -> O {
        self.ops
    }

    /// The tree is valid and has a root, and every mapping refers to an existing object and
    /// slice, within the object.
    pub open spec fn wf(&self) -> bool {
        &&& self.spec_tree().wf()
        &&& self.spec_tree().slices@.len() >= 1
        &&& forall|m: int|
            0 <= m < self.spec_tree().mappings@.len() ==> {
                let mapping = #[trigger] self.spec_tree().mappings@[m];
                &&& mapping.object < self.spec_objects().len()
                &&& mapping.object_offset + mapping.page_count <= self.spec_objects()[mapping.object as int].spec_page_count()
                &&& mapping.inner matches Some(i) ==> i.parent < self.spec_tree().slices@.len()
            }
    }

    /// Whether `handle` refers to a slice of this address space.
    pub open spec fn valid_slice(&self, handle: SliceHandle) -> bool {
        &&& handle.index < self.spec_tree().slices@.len()
        &&& self.spec_tree().slices@[handle.index as int].start == handle.start
        &&& self.spec_tree().slices@[handle.index as int].page_count == handle.page_count
    }

    /// Whether `handle` refers to a mapping of this address space.
    pub open spec fn valid_mapping(&self, handle: MappingHandle) -> bool {
        &&& handle.index < self.spec_tree().mappings@.len()
        &&& self.spec_tree().mappings@[handle.index as int].start == handle.start
        &&& self.spec_tree().mappings@[handle.index as int].page_count == handle.page_count
        &&& self.spec_tree().mappings@[handle.index as int].object_offset == handle.object_offset
        &&& self.spec_tree().mappings@[handle.index as int].object == handle.object
    }

    /// Creates an address space spanning `range`, with page table operations `ops`, holding only
    /// its root slice, named `root`.
    pub fn new(range: core::ops::Range<VirtPageNum>, ops: O) -> (r: Self)
        requires
            range.start@ <= range.end@,
            range.end@ + SPACE_MARGIN <= usize::MAX,
        ensures
            r.wf(),
            r.spec_tree().slices@.len() == 1,
            r.spec_tree().slices@[0].start == range.start,
            r.spec_tree().slices@[0].page_count == range.end@ - range.start@,
            r.spec_tree().slices@[0].inner matches Some(inner) && inner.parent is None
                && inner.children@.len() == 0,
            r.spec_tree().mappings@.len() == 0,
            r.spec_objects().len() == 0,
            r.spec_ops() == ops,
    {
        let root_name: [u8; 4] = [0x72, 0x6f, 0x6f, 0x74];
        let root = Slice::new(None, root_name.as_slice(), range.start, range.end.diff(range.start));
        let mut slices: Vec<Slice> = Vec::new();
        slices.push(root);
        let tree = SliceTree { slices, mappings: Vec::new() };
        proof {
            assert(tree.slice_wf(0));
        }
        Self { tree, objects: Vec::new(), ops }
    }

    /// The page table operations.
    pub fn ops(&self) -> (r: &O)
        ensures
            *r == self.spec_ops(),
    {
        &self.ops
    }

    /// The root slice.
    pub fn root_slice(&self) -> (r: SliceHandle)
        requires
            self.wf(),
        ensures
            self.valid_slice(r),
            r.index == 0,
    {
        SliceHandle { index: 0, start: self.tree.slices[0].start, page_count: self.tree.slices[0].page_count }
    }

    /// Adds `object` to the objects that mappings of this address space can refer to, returning
    /// its index.
    pub fn add_object(&mut self, object: AnyVmObject) -> (r: usize)
        requires
            old(self).wf(),
        ensures
            final(self).wf(),
            r == old(self).spec_objects().len(),
            final(self).spec_objects() == old(self).spec_objects().push(object),
            final(self).spec_tree() == old(self).spec_tree(),
            final(self).spec_ops() == old(self).spec_ops(),
    {
        let r = self.objects.len();
        self.objects.push(object);
        proof {
            assert forall|m: int| 0 <= m < self.tree.mappings@.len() implies {
                let mapping = #[trigger] self.tree.mappings@[m];
                &&& mapping.object < self.objects@.len()
                &&& mapping.object_offset + mapping.page_count <= self.objects@[mapping.object as int].spec_page_count()
                &&& mapping.inner matches Some(i) ==> i.parent < self.tree.slices@.len()
            } by {
                let mapping = self.tree.mappings@[m];
                assert(self.objects@[mapping.object as int] == old(self).objects@[mapping.object as int]);
            }
        }
        r
    }

    /// Allocates a subslice of `page_count` pages, named `name`, in `slice`: at the page that
    /// `base` fixes, or in the first gap of the slice with room for `page_count` pages.
    ///
    /// Errors: those of [`SliceTree::alloc_spot`].
    pub fn create_subslice(&mut self, slice: &SliceHandle, name: &[u8], base: MapBase, page_count: usize) -> (r:
        Result<SliceHandle>)
        requires
            old(self).wf(),
            old(self).valid_slice(*slice),
        ensures
            final(self).wf(),
            final(self).spec_objects() == old(self).spec_objects(),
            r is Err ==> *final(self) == *old(self),
            spec_fixed_start(base) matches Some(st) ==> (spec_fixed_error(
                old(self).spec_tree().slices@[slice.index as int],
                st,
                page_count,
            ) matches Some(e) ==> r == Err::<SliceHandle, Error>(e)),
            spec_fixed_start(base) matches Some(st) ==> (spec_fixed_error(
                old(self).spec_tree().slices@[slice.index as int],
                st,
                page_count,
            ) is None ==> r is Ok),
            spec_fixed_start(base) is None ==> (spec_dynamic_error(
                old(self).spec_tree().slices@[slice.index as int],
                page_count,
            ) matches Some(e) ==> r == Err::<SliceHandle, Error>(e)),
            spec_fixed_start(base) is None ==> (spec_dynamic_error(
                old(self).spec_tree().slices@[slice.index as int],
                page_count,
            ) is None ==> r is Ok),
            final(self).spec_ops() == old(self).spec_ops(),
            forall|h: SliceHandle| old(self).valid_slice(h) ==> #[trigger] final(self).valid_slice(h),
            forall|h: MappingHandle| old(self).valid_mapping(h) ==> #[trigger] final(self).valid_mapping(h),
            r matches Ok(h) ==> {
                &&& final(self).valid_slice(h)
                &&& h.index == old(self).spec_tree().slices@.len()
                &&& final(self).spec_tree().slices@.len() == old(self).spec_tree().slices@.len() + 1
                &&& final(self).spec_tree().mappings@.len() == old(self).spec_tree().mappings@.len()
                &&& h.page_count == page_count
                &&& spec_fixed_start(base) matches Some(st) ==> h.start == st
                &&& final(self).spec_tree().slices@[h.index as int].inner matches Some(inner)
                    && inner.parent == Some(slice.index)
                &&& spec_fixed_start(base) matches Some(st) ==> (
                    final(self).spec_tree().slices@[slice.index as int].inner matches Some(inner)
                    && old(self).spec_tree().slices@[slice.index as int].inner matches Some(inner0)
                    && inner.children@ == inner0.children@.insert(
                        count_starting_at_or_before(inner0.children@, st@),
                        SliceChildNode { start: st, page_count, data: SliceChild::Subslice(h.index) },
                    ))
            },
    {
        let mut bytes: Vec<u8> = Vec::new();
        let mut i: usize = 0;
        while i < name.len()
            invariant
                i <= name@.len(),
                bytes@ == name@.take(i as int),
            decreases name@.len() - i,
        {
            bytes.push(name[i]);
            proof {
                assert(name@.take(i + 1) =~= name@.take(i as int).push(name@[i as int]));
            }
            i = i + 1;
        }
        let ghost old_self = *self;
        let new = NewChild::Subslice { name: bytes, page_count };
        let ghost new_spec = new;
        let child = self.tree.alloc_spot(slice.index, base.fixed_start(), page_count, new)?;
        let index = match child {
            SliceChild::Subslice(j) => j,
            SliceChild::Mapping(_) => {
                proof {
                    let at = choose|at: VirtPageNum| #[trigger] placed(old_self.tree, self.tree, slice.index as int, child, at, new_spec);
                }
                return Err(Error::InvalidState);
            },
        };
        let ghost at = choose|at: VirtPageNum| #[trigger] placed(old_self.tree, self.tree, slice.index as int, child, at, new_spec);
        let handle = SliceHandle { index, start: self.tree.slices[index].start, page_count: self.tree.slices[index].page_count };
        proof {
            self.lemma_wf_after_place(old_self, slice.index as int, child, at, new_spec);
        }
        Ok(handle)
    }

    /// Maps pages `object_offset..object_offset + page_count` of object `object` into `slice`,
    /// with protection `prot`: at the page that `base` fixes, or in the first gap of the slice
    /// large enough for the `page_count` pages. Only those pages are reserved in the slice.
    ///
    /// Errors: `InvalidArgument` when the pages do not lie within the object; otherwise those of
    /// [`SliceTree::alloc_spot`].
    pub fn map(
        &mut self,
        slice: &SliceHandle,
        base: MapBase,
        page_count: usize,
        object_offset: usize,
        object: usize,
        prot: Protection,
    ) -> (r: Result<MappingHandle>)
        requires
            old(self).wf(),
            old(self).valid_slice(*slice),
            object < old(self).spec_objects().len(),
        ensures
            final(self).wf(),
            final(self).spec_objects() == old(self).spec_objects(),
            r is Err ==> *final(self) == *old(self),
            ({
                let total = old(self).spec_objects()[object as int].spec_page_count();
                &&& (object_offset > total || page_count > total - object_offset) ==> r == Err::<
                    MappingHandle,
                    Error,
                >(Error::InvalidArgument)
                &&& !(object_offset > total || page_count > total - object_offset) ==> (
                spec_fixed_start(base) matches Some(st) ==> (spec_fixed_error(
                    old(self).spec_tree().slices@[slice.index as int],
                    st,
                    page_count,
                ) matches Some(e) ==> r == Err::<MappingHandle, Error>(e)))
                &&& !(object_offset > total || page_count > total - object_offset) ==> (
                spec_fixed_start(base) matches Some(st) ==> (spec_fixed_error(
                    old(self).spec_tree().slices@[slice.index as int],
                    st,
                    page_count,
                ) is None ==> r is Ok))
                &&& !(object_offset > total || page_count > total - object_offset) ==> (
                spec_fixed_start(base) is None ==> (spec_dynamic_error(
                    old(self).spec_tree().slices@[slice.index as int],
                    page_count,
                ) matches Some(e) ==> r == Err::<MappingHandle, Error>(e)))
                &&& !(object_offset > total || page_count > total - object_offset) ==> (
                spec_fixed_start(base) is None ==> (spec_dynamic_error(
                    old(self).spec_tree().slices@[slice.index as int],
                    page_count,
                ) is None ==> r is Ok))
            }),
            r matches Ok(h) ==> {
                &&& final(self).valid_mapping(h)
                &&& h.index == old(self).spec_tree().mappings@.len()
                &&& h.page_count == page_count
                &&& h.object_offset == object_offset
                &&& h.object == object
                &&& spec_fixed_start(base) matches Some(st) ==> h.start == st
                &&& final(self).spec_tree().mappings@[h.index as int].inner == Some(
                    super::tree::MappingInner { parent: slice.index, prot },
                )
            },
            final(self).spec_ops() == old(self).spec_ops(),
            forall|h: SliceHandle| old(self).valid_slice(h) ==> #[trigger] final(self).valid_slice(h),
            forall|h: MappingHandle| old(self).valid_mapping(h) ==> #[trigger] final(self).valid_mapping(h),
            r matches Ok(h) ==> forall|vpn: usize|
                h.start@ <= vpn < h.start@ + page_count ==> #[trigger] final(self).spec_tree().spec_get_mapping(
                    slice.index as int,
                    vpn,
                ) == Ok::<usize, Error>(h.index),
    {
        let total = self.objects[object].page_count();
        if object_offset > total || page_count > total - object_offset {
            return Err(Error::InvalidArgument);
        }
        let ghost old_self = *self;
        let new = NewChild::Mapping { page_count, object, object_offset, prot };
        let ghost new_spec = new;
        let child = self.tree.alloc_spot(slice.index, base.fixed_start(), page_count, new)?;
        let index = match child {
            SliceChild::Mapping(m) => m,
            SliceChild::Subslice(_) => {
                proof {
                    let at = choose|at: VirtPageNum| #[trigger] placed(old_self.tree, self.tree, slice.index as int, child, at, new_spec);
                }
                return Err(Error::InvalidState);
            },
        };
        let ghost at = choose|at: VirtPageNum| #[trigger] placed(old_self.tree, self.tree, slice.index as int, child, at, new_spec);
        let m = &self.tree.mappings[index];
        let handle = MappingHandle {
            index,
            start: m.start,
            page_count: m.page_count,
            object_offset: m.object_offset,
            object: m.object,
        };
        proof {
            self.lemma_wf_after_place(old_self, slice.index as int, child, at, new_spec);
            let (at2, pos) = choose|at2: VirtPageNum, pos: int|
                placed(old_self.tree, self.tree, slice.index as int, child, at2, new_spec) && #[trigger] child_inserted(
                    old_self.tree,
                    self.tree,
                    slice.index as int,
                    pos,
                    SliceChildNode { start: at2, page_count: new_spec.spec_pages(), data: child },
                );
            let node = SliceChildNode { start: at2, page_count: new_spec.spec_pages(), data: child };
            assert forall|vpn: usize|
                handle.start@ <= vpn < handle.start@ + page_count implies #[trigger] self.spec_tree().spec_get_mapping(
                    slice.index as int,
                    vpn,
                ) == Ok::<usize, Error>(handle.index) by {
                lemma_inserted_mapping_found(old_self.tree, self.tree, slice.index as int, pos, node, vpn);
            }
        }
        Ok(handle)
    }

    /// Commits pages `offset..offset + page_count` of mapping `m`: asks its object for the frame
    /// of each page, for accesses as `commit_type` says, and maps it at the page, with the
    /// mapping's protection and the object's cache mode, taking page tables from `pmm`.
    ///
    /// Errors: `InvalidState` when the mapping is detached; those of
    /// [`VmObject::provide_page`] and [`PageTable::map`], the earlier pages staying committed.
    fn do_commit(
        &mut self,
        pmm: &mut PhysManager,
        mem: &mut PageTableMemory,
        m: usize,
        commit_type: CommitType,
        offset: usize,
        page_count: usize,
    ) -> (r: Result<()>)
        requires
            old(self).wf(),
            old(pmm).wf(),
            m < old(self).spec_tree().mappings@.len(),
            ({
                let mapping = old(self).spec_tree().mappings@[m as int];
                &&& mapping.start@ + offset + page_count <= usize::MAX
                &&& mapping.object_offset + offset + page_count <= old(self).spec_objects()[mapping.object as int].spec_page_count()
            }),
        ensures
            final(self).wf(),
            final(pmm).wf(),
            final(self).spec_tree() == old(self).spec_tree(),
            final(self).spec_ops() == old(self).spec_ops(),
            final(self).spec_objects().len() == old(self).spec_objects().len(),
            forall|o: int|
                0 <= o < old(self).spec_objects().len() ==> (#[trigger] final(self).spec_objects()[o]).spec_page_count()
                    == old(self).spec_objects()[o].spec_page_count(),
            old(self).spec_tree().mappings@[m as int].inner is None ==> r == Err::<(), Error>(
                Error::InvalidState,
            ),
            old(self).spec_tree().mappings@[m as int].inner is Some && page_count == 0 ==> r is Ok,
            old(self).spec_tree().mappings@[m as int].inner is Some && page_count == 1
                && old(self).single_commit_fits(*old(pmm), *old(mem), m, offset) ==> r is Ok,
            r is Ok ==> {
                let mapping = old(self).spec_tree().mappings@[m as int];
                forall|k: int|
                    0 <= k < page_count ==> (#[trigger] final(self).spec_objects()[mapping.object as int].spec_frame(
                        mapping.object_offset + offset + k,
                    )) is Some
            },
            mapping_ready(*old(mem), old(self).spec_ops().spec_root_pt()@, *old(pmm)) ==> {
                let root = old(self).spec_ops().spec_root_pt()@;
                let mapping = old(self).spec_tree().mappings@[m as int];
                &&& mapping_ready(*final(mem), root, *final(pmm))
                &&& forall|vpn: usize|
                    #![trigger spec_lookup(*final(mem), root, 3, vpn)]
                    spec_lookup(*old(mem), root, 3, vpn) is Some ==> spec_lookup(*final(mem), root, 3, vpn)
                        == spec_lookup(*old(mem), root, 3, vpn)
                &&& r is Ok ==> forall|k: int|
                    0 <= k < page_count ==> #[trigger] maps_frame(
                        *final(mem),
                        root,
                        mapping.start@ + offset + k,
                        final(self).spec_objects()[mapping.object as int].spec_frame(mapping.object_offset + offset + k),
                    )
                &&& r is Ok ==> forall|k: int|
                    0 <= k < page_count ==> #[trigger] page_grants(
                        *final(mem),
                        root,
                        mapping.start@ + offset + k,
                        old(self).spec_ops().spec_base_perms(),
                        mapping.inner->Some_0.prot,
                    )
            },
    {
        let ghost root = self.ops.spec_root_pt()@;
        let ghost m_start = *mem;
        let ghost ready = mapping_ready(*mem, root, *pmm);
        let mapping = self.tree.mappings[m];
        let prot = mapping.prot()?;
        let object = mapping.object;
        let cache_mode = self.objects[object].cache_mode();
        let perms = perms_for_prot(self.ops.base_perms(), prot);
        let mut pt = PageTable::new(self.ops.root_pt());
        let ghost objects0 = self.objects@;
        let mut k: usize = 0;
        while k < page_count
            invariant
                k <= page_count,
                self.tree == old(self).tree,
                self.ops == old(self).ops,
                old(self).wf(),
                m < self.tree.mappings@.len(),
                mapping == self.tree.mappings@[m as int],
                mapping.inner is Some,
                object == mapping.object,
                object < self.objects@.len(),
                self.objects@.len() == objects0.len(),
                objects0 == old(self).objects@,
                forall|o: int|
                    0 <= o < self.objects@.len() ==> (#[trigger] self.objects@[o]).spec_page_count()
                        == objects0[o].spec_page_count(),
                mapping.start@ + offset + page_count <= usize::MAX,
                mapping.object_offset + offset + page_count <= objects0[object as int].spec_page_count(),
                pmm.wf(),
                forall|j: int|
                    0 <= j < k ==> (#[trigger] self.objects@[object as int].spec_frame(
                        mapping.object_offset + offset + j,
                    )) is Some,
                root == self.ops.spec_root_pt()@,
                pt.spec_root() == root,
                m_start == *old(mem),
                k == 0 ==> *mem == m_start && *pmm == *old(pmm) && self.objects@ == objects0,
                ready == mapping_ready(m_start, root, *old(pmm)),
                ready ==> {
                    &&& mapping_ready(*mem, root, *pmm)
                    &&& forall|vpn: usize|
                        #![trigger spec_lookup(*mem, root, 3, vpn)]
                        spec_lookup(m_start, root, 3, vpn) is Some ==> spec_lookup(*mem, root, 3, vpn)
                            == spec_lookup(m_start, root, 3, vpn)
                    &&& forall|j: int|
                        0 <= j < k ==> #[trigger] maps_frame(
                            *mem,
                            root,
                            mapping.start@ + offset + j,
                            self.objects@[object as int].spec_frame(mapping.object_offset + offset + j),
                        )
                    &&& forall|j: int|
                        0 <= j < k ==> #[trigger] mapped_as(
                            *mem,
                            root,
                            3,
                            (mapping.start@ + offset + j) as usize,
                            perms,
                            cache_mode,
                        )
                },
                perms@ == spec_perms_for_prot(self.ops.spec_base_perms(), mapping.inner->Some_0.prot),
            decreases page_count - k,
        {
            let object_offset = mapping.object_offset + offset + k;
            let ghost before = self.objects@[object as int];
            let ghost objs_before = self.objects@;
            let ghost pmm_before = *pmm;
            let provided = self.objects[object].provide_page(pmm, object_offset, commit_type);
            proof {
                if ready {
                    lemma_ready_with_fewer_frames(*mem, root, pmm_before, *pmm);
                    assert forall|j: int|
                        0 <= j < k implies #[trigger] maps_frame(
                            *mem,
                            root,
                            mapping.start@ + offset + j,
                            self.objects@[object as int].spec_frame(mapping.object_offset + offset + j),
                        ) by {
                        assert(before.spec_frame(mapping.object_offset + offset + j) is Some);
                        assert(maps_frame(*mem, root, mapping.start@ + offset + j, before.spec_frame(mapping.object_offset + offset + j)));
                    }
                }
                assert forall|o: int| 0 <= o < self.objects@.len() implies (#[trigger] self.objects@[o]).spec_page_count()
                    == objects0[o].spec_page_count() by {
                    if o != object {
                        assert(self.objects@[o] == objs_before[o]);
                    }
                }
                self.lemma_wf_objects(old(self).objects@);
            }
            let pfn = provided?;
            proof {
                assert forall|j: int| 0 <= j < k + 1 implies (#[trigger] self.objects@[object as int].spec_frame(
                    mapping.object_offset + offset + j,
                )) is Some by {
                    if j < k {
                        assert(before.spec_frame(mapping.object_offset + offset + j) is Some);
                    }
                }
            }
            let mut pointer = MappingPointer::new(mapping.start.plus(offset + k), 1);
            proof {
                self.lemma_wf_objects(old(self).objects@);
            }
            let ghost m0 = *mem;
            let ghost p0 = pointer;
            let res = pt.map(mem, pmm, &mut pointer, pfn, perms, cache_mode);
            proof {
                if ready {
                    let base = mapping.start@ + offset + k;
                    assert forall|vpn: usize|
                        #![trigger spec_lookup(*mem, root, 3, vpn)]
                        spec_lookup(m_start, root, 3, vpn) is Some implies spec_lookup(*mem, root, 3, vpn)
                            == spec_lookup(m_start, root, 3, vpn) by {
                        assert(spec_lookup(m0, root, 3, vpn) == spec_lookup(m_start, root, 3, vpn));
                    }
                    if res is Ok {
                    assert forall|j: int|
                        0 <= j < k + 1 implies #[trigger] mapped_as(
                            *mem,
                            root,
                            3,
                            (mapping.start@ + offset + j) as usize,
                            perms,
                            cache_mode,
                        ) by {
                        let vpn = (mapping.start@ + offset + j) as usize;
                        if j < k {
                            assert(mapped_as(m0, root, 3, vpn, perms, cache_mode));
                            assert(spec_lookup_entry(m0, root, 3, vpn) is Some);
                            assert(spec_lookup_entry(*mem, root, 3, vpn) == spec_lookup_entry(m0, root, 3, vpn));
                        } else {
                            lemma_boundary_above(base, 3);
                            assert(p0.spec_virt() <= vpn < pointer.spec_virt());
                        }
                    }
                    assert forall|j: int|
                        0 <= j < k + 1 implies #[trigger] maps_frame(
                            *mem,
                            root,
                            mapping.start@ + offset + j,
                            self.objects@[object as int].spec_frame(mapping.object_offset + offset + j),
                        ) by {
                        let vpn = (mapping.start@ + offset + j) as usize;
                        if j < k {
                            if self.objects@[object as int].spec_frame(mapping.object_offset + offset + j).unwrap()@ < max_pte_frame() {
                                assert(maps_frame(m0, root, mapping.start@ + offset + j, self.objects@[object as int].spec_frame(mapping.object_offset + offset + j)));
                                assert(spec_lookup(m0, root, 3, vpn) is Some);
                                assert(spec_lookup(*mem, root, 3, vpn) == spec_lookup(m0, root, 3, vpn));
                            }
                        } else {
                            assert(self.objects@[object as int].spec_frame(mapping.object_offset + offset + j) == Some(pfn));
                            if pfn@ < max_pte_frame() {
                                lemma_boundary_above(base, 3);
                                assert(p0.spec_virt() <= vpn < pointer.spec_virt());
                                assert(spec_lookup(*mem, root, 3, vpn) == Some(pfn@ + vpn - p0.spec_base()));
                            }
                        }
                    }
                    }
                }
            }
            res?;
            k = k + 1;
        }
        proof {
            self.lemma_wf_objects(old(self).objects@);
            if ready {
                assert forall|j: int| 0 <= j < page_count implies #[trigger] page_grants(
                    *mem,
                    root,
                    mapping.start@ + offset + j,
                    old(self).spec_ops().spec_base_perms(),
                    mapping.inner->Some_0.prot,
                ) by {
                    let vpn = (mapping.start@ + offset + j) as usize;
                    assert(mapped_as(*mem, root, 3, vpn, perms, cache_mode));
                    let e = spec_lookup_entry(*mem, root, 3, vpn)->Some_0;
                    lemma_entry_grants(e, perms, old(self).spec_ops().spec_base_perms(), mapping.inner->Some_0.prot);
                }
            }
        }
        Ok(())
    }

    /// Whether page `offset` of mapping `m` can be committed for sure: the page table and `pmm`
    /// are ready for mapping, the page is not mapped yet, and `pmm` holds enough free single
    /// frames for the page (unless the object already has its frame) and for a table at each
    /// level below the root.
    pub open spec fn single_commit_fits(&self, pmm: PhysManager, mem: PageTableMemory, m: usize, offset: usize) -> bool {
        let mapping = self.spec_tree().mappings@[m as int];
        let root = self.spec_ops().spec_root_pt()@;
        let has_frame = self.spec_objects()[mapping.object as int].spec_frame(mapping.object_offset + offset) is Some;
        &&& mapping_ready(mem, root, pmm)
        &&& spec_lookup(mem, root, 3, (mapping.start@ + offset) as usize) is None
        &&& pmm.spec_lists()[0].len() >= if has_frame { 3nat } else { 4nat }
    }

    /// Whether the page `vpn` lies in a mapping and can be committed for sure
    /// ([`single_commit_fits`](AddrSpace::single_commit_fits)).
    pub open spec fn fault_fits(&self, pmm: PhysManager, mem: PageTableMemory, vpn: VirtPageNum) -> bool {
        match self.spec_tree().spec_get_mapping(0, vpn@) {
            Ok(m) => self.single_commit_fits(pmm, mem, m, (vpn@ - self.spec_tree().mappings@[m as int].start@) as usize),
            Err(_) => false,
        }
    }

    /// The error with which a fault on page `vpn` by an access of `access_type` is refused before
    /// any page is committed, or `None` when the mapping covering the page allows the access.
    pub open spec fn fault_error(&self, vpn: VirtPageNum, access_type: AccessType) -> Option<Error> {
        match self.spec_tree().spec_get_mapping(0, vpn@) {
            Err(e) => Some(e),
            Ok(m) => match self.spec_tree().mappings@[m as int].inner {
                None => Some(Error::InvalidState),
                Some(i) => if spec_access_allowed(access_type, i.prot) {
                    None
                } else {
                    Some(Error::NoPerms)
                },
            },
        }
    }

    /// Handles a fault on page `vpn` by an access of `access_type`: finds the mapping covering the
    /// page and commits the page if the mapping's protection allows the access.
    ///
    /// Where the page table and `pmm` are ready for mapping ([`mapping_ready`]), they stay so,
    /// every page mapped before stays mapped as it was, and a page committed is found mapped to
    /// the object's frame for it.
    ///
    /// Errors: those of [`SliceTree::get_mapping`] (`BadAddress` when no mapping covers the page);
    /// `InvalidState` when the mapping is detached; `NoPerms` when its protection forbids the
    /// access; those of committing the page. A fault that passes these checks succeeds when the
    /// page is not mapped yet and `pmm` can supply its frame and the tables on the way
    /// ([`fault_fits`](AddrSpace::fault_fits)).
    pub fn fault(&mut self, pmm: &mut PhysManager, mem: &mut PageTableMemory, vpn: VirtPageNum, access_type: AccessType) -> (r: Result<()>)
        requires
            old(self).wf(),
            old(pmm).wf(),
        ensures
            final(self).wf(),
            final(pmm).wf(),
            final(self).spec_tree() == old(self).spec_tree(),
            final(self).spec_ops() == old(self).spec_ops(),
            old(self).fault_error(vpn, access_type) matches Some(e) ==> r == Err::<(), Error>(e),
            old(self).spec_tree().spec_get_mapping(0, vpn@) matches Err(e) ==> r == Err::<(), Error>(e),
            old(self).spec_tree().spec_get_mapping(0, vpn@) matches Ok(m) ==> {
                let mapping = old(self).spec_tree().mappings@[m as int];
                &&& mapping.inner is None ==> r == Err::<(), Error>(Error::InvalidState)
                &&& (mapping.inner matches Some(i) && !spec_access_allowed(access_type, i.prot)) ==> r
                    == Err::<(), Error>(Error::NoPerms)
                &&& r is Ok ==> final(self).spec_objects()[mapping.object as int].spec_frame(
                    mapping.object_offset + (vpn@ - mapping.start@),
                ) is Some
                &&& r is Ok && mapping_ready(*old(mem), old(self).spec_ops().spec_root_pt()@, *old(pmm))
                    ==> maps_frame(
                    *final(mem),
                    old(self).spec_ops().spec_root_pt()@,
                    vpn@ as int,
                    final(self).spec_objects()[mapping.object as int].spec_frame(
                        mapping.object_offset + (vpn@ - mapping.start@),
                    ),
                )
            },
            mapping_ready(*old(mem), old(self).spec_ops().spec_root_pt()@, *old(pmm)) ==> {
                let root = old(self).spec_ops().spec_root_pt()@;
                &&& mapping_ready(*final(mem), root, *final(pmm))
                &&& forall|v: usize|
                    #![trigger spec_lookup(*final(mem), root, 3, v)]
                    spec_lookup(*old(mem), root, 3, v) is Some ==> spec_lookup(*final(mem), root, 3, v)
                        == spec_lookup(*old(mem), root, 3, v)
            },
            fault_outcome(*old(self), *final(self), *old(pmm), *final(pmm), *old(mem), *final(mem), vpn, access_type, r),
    {
        proof {
            self.tree.lemma_get_mapping_covers(0, vpn@);
        }
        let m = self.tree.get_mapping(0, vpn)?;
        let mapping = self.tree.mappings[m];
        let prot = mapping.prot()?;
        if !access_allowed(access_type, prot) {
            return Err(Error::NoPerms);
        }
        let offset = vpn.diff(mapping.start);
        let r = self.do_commit(pmm, mem, m, get_commit_type(access_type), offset, 1);
        proof {
            if r is Ok {
                assert(self.spec_objects()[mapping.object as int].spec_frame(
                    mapping.object_offset + offset + 0,
                ) is Some);
                if mapping_ready(*old(mem), old(self).spec_ops().spec_root_pt()@, *old(pmm)) {
                    assert(maps_frame(
                        *mem,
                        old(self).spec_ops().spec_root_pt()@,
                        mapping.start@ + offset + 0,
                        self.spec_objects()[mapping.object as int].spec_frame(mapping.object_offset + offset + 0),
                    ));
                    assert(page_grants(
                        *mem,
                        old(self).spec_ops().spec_root_pt()@,
                        mapping.start@ + offset + 0,
                        old(self).spec_ops().spec_base_perms(),
                        mapping.inner->Some_0.prot,
                    ));
                }
            }
        }
        r
    }

    /// Commits pages `offset..offset + page_count` of `mapping`, for writing if the mapping is
    /// writable and for reading otherwise, so that valid accesses to them do not fault.
    ///
    /// Errors: `InvalidState` when the mapping is detached; those of committing the pages. On an
    /// attached mapping, committing no page succeeds, and so does committing a single page that
    /// is not mapped yet where `pmm` can supply its frame and the tables on the way
    /// ([`single_commit_fits`](AddrSpace::single_commit_fits)).
    pub fn commit(&mut self, pmm: &mut PhysManager, mem: &mut PageTableMemory, mapping: &MappingHandle, offset: usize, page_count: usize) -> (r: Result<()>)
        requires
            old(self).wf(),
            old(pmm).wf(),
            old(self).valid_mapping(*mapping),
            mapping.start@ + offset + page_count <= usize::MAX,
            mapping.object_offset + offset + page_count <= old(self).spec_objects()[mapping.object as int].spec_page_count(),
        ensures
            final(self).wf(),
            final(pmm).wf(),
            final(self).spec_tree() == old(self).spec_tree(),
            final(self).spec_ops() == old(self).spec_ops(),
            final(self).spec_objects().len() == old(self).spec_objects().len(),
            forall|o: int|
                0 <= o < old(self).spec_objects().len() ==> (#[trigger] final(self).spec_objects()[o]).spec_page_count()
                    == old(self).spec_objects()[o].spec_page_count(),
            old(self).spec_tree().mappings@[mapping.index as int].inner is None ==> r == Err::<(), Error>(
                Error::InvalidState,
            ),
            old(self).spec_tree().mappings@[mapping.index as int].inner is Some && page_count == 0 ==> r is Ok,
            old(self).spec_tree().mappings@[mapping.index as int].inner is Some && page_count == 1
                && old(self).single_commit_fits(*old(pmm), *old(mem), mapping.index, offset) ==> r is Ok,
            r is Ok ==> forall|k: int|
                0 <= k < page_count ==> (#[trigger] final(self).spec_objects()[mapping.object as int].spec_frame(
                    mapping.object_offset + offset + k,
                )) is Some,
            mapping_ready(*old(mem), old(self).spec_ops().spec_root_pt()@, *old(pmm)) ==> {
                let root = old(self).spec_ops().spec_root_pt()@;
                &&& mapping_ready(*final(mem), root, *final(pmm))
                &&& forall|v: usize|
                    #![trigger spec_lookup(*final(mem), root, 3, v)]
                    spec_lookup(*old(mem), root, 3, v) is Some ==> spec_lookup(*final(mem), root, 3, v)
                        == spec_lookup(*old(mem), root, 3, v)
                &&& r is Ok ==> forall|k: int|
                    0 <= k < page_count ==> #[trigger] maps_frame(
                        *final(mem),
                        root,
                        mapping.start@ + offset + k,
                        final(self).spec_objects()[mapping.object as int].spec_frame(mapping.object_offset + offset + k),
                    )
                &&& r is Ok ==> forall|k: int|
                    0 <= k < page_count ==> #[trigger] page_grants(
                        *final(mem),
                        root,
                        mapping.start@ + offset + k,
                        old(self).spec_ops().spec_base_perms(),
                        old(self).spec_tree().mappings@[mapping.index as int].inner->Some_0.prot,
                    )
            },
    {
        let prot = self.tree.mappings[mapping.index].prot()?;
        let commit_type = if prot.write {
            CommitType::Write
        } else {
            CommitType::Read
        };
        self.do_commit(pmm, mem, mapping.index, commit_type, offset, page_count)
    }

    /// Unmaps pages `start..start + page_count` from the page table and frees the page tables
    /// covering only them (those whose whole range of 512 pages lies inside), returning the TLB
    /// flush that the unmapping needs. Frames of freed tables go back to `pmm`.
    ///
    /// The pages of the range are then no longer mapped, where the walk for its first page meets
    /// an empty entry only at the first page of that entry's span (see [`PageTable::unmap`]).
    ///
    /// Errors: `ResourceOverlap` when the range partially covers a large page.
    fn do_unmap(&mut self, pmm: &mut PhysManager, mem: &mut PageTableMemory, start: VirtPageNum, page_count: usize) -> (r: Result<TlbFlush>)
        requires
            old(pmm).wf(),
            start@ + page_count + SPACE_MARGIN <= usize::MAX,
        ensures
            final(pmm).wf(),
            *final(self) == *old(self),
            forall|vpn: usize|
                #[trigger] spec_lookup(*final(mem), old(self).spec_ops().spec_root_pt()@, 3, vpn) is None
                    || spec_lookup(*final(mem), old(self).spec_ops().spec_root_pt()@, 3, vpn) == spec_lookup(
                    *old(mem),
                    old(self).spec_ops().spec_root_pt()@,
                    3,
                    vpn,
                ),
            final(pmm).spec_max_pfn() == old(pmm).spec_max_pfn(),
            final(pmm).spec_total_pages() == old(pmm).spec_total_pages(),
            final(pmm).spec_free_pages() >= old(pmm).spec_free_pages(),
            r is Ok && first_walk_aligned(*old(mem), old(self).spec_ops().spec_root_pt()@, 3, start@)
                ==> forall|vpn: usize|
                start@ <= vpn < start@ + page_count && vpn < spec_table_boundary(start@ as int, 3)
                    ==> #[trigger] spec_lookup(*final(mem), old(self).spec_ops().spec_root_pt()@, 3, vpn)
                    is None,
    {
        let ghost root = self.ops.spec_root_pt()@;
        let mut pt = PageTable::new(self.ops.root_pt());
        let mut gather = PendingInvalidationGather::new();
        let mut pointer = MappingPointer::new(start, page_count);
        let ghost p0 = pointer;
        let unmapped = pt.unmap(mem, &mut gather, &mut pointer);
        proof {
            if unmapped is Ok && first_walk_aligned(*old(mem), root, 3, start@) {
                assert forall|vpn: usize|
                    start@ <= vpn < start@ + page_count && vpn < spec_table_boundary(start@ as int, 3)
                        implies #[trigger] spec_lookup(*mem, root, 3, vpn) is None by {
                    assert(p0.spec_virt() <= vpn < pointer.spec_virt());
                }
            }
        }
        unmapped?;
        let ghost mem1 = *mem;
        let flush = gather.as_tlb_flush();
        let first = align_up(start.as_usize(), 512);
        let last = align_down(start.as_usize() + page_count, 512);
        if first < last {
            let culled = pt.cull_tables(mem, VirtPageNum::new(first), last - first);
            proof {
                lemma_cleared_is_update(mem1, *mem);
                assert forall|vpn: usize|
                    #[trigger] spec_lookup(*mem, root, 3, vpn) is None || spec_lookup(*mem, root, 3, vpn)
                        == spec_lookup(*old(mem), root, 3, vpn) by {
                    lemma_lookup_after_clear(mem1, *mem, root, 3, vpn);
                    assert(spec_lookup(mem1, root, 3, vpn) is None || spec_lookup(mem1, root, 3, vpn)
                        == spec_lookup(*old(mem), root, 3, vpn));
                }
                if first_walk_aligned(*old(mem), root, 3, start@) {
                    assert forall|vpn: usize|
                        start@ <= vpn < start@ + page_count && vpn < spec_table_boundary(start@ as int, 3)
                            implies #[trigger] spec_lookup(*mem, root, 3, vpn) is None by {
                        assert(spec_lookup(mem1, root, 3, vpn) is None);
                        lemma_lookup_after_clear(mem1, *mem, root, 3, vpn);
                    }
                }
            }
            let max_pfn = pmm.max_pfn();
            let mut k: usize = 0;
            while k < culled.len()
                invariant
                    k <= culled@.len(),
                    pmm.wf(),
                    max_pfn == pmm.spec_max_pfn(),
                    max_pfn == old(pmm).spec_max_pfn(),
                    pmm.spec_total_pages() == old(pmm).spec_total_pages(),
                    pmm.spec_free_pages() >= old(pmm).spec_free_pages(),
                decreases culled@.len() - k,
            {
                let table = culled[k];
                if table.as_usize() < max_pfn {
                    proof {
                        vstd::arithmetic::power2::lemma2_to64();
                    }
                    pmm.deallocate(table, 0);
                }
                k = k + 1;
            }
        }
        Ok(flush)
    }

    /// Unmaps `slice`: takes it out of its parent, detaches it and everything below it, and
    /// unmaps its pages; returns the TLB flush that the unmapping needs.
    ///
    /// Errors: `InvalidState` when the slice is already detached; `InvalidArgument` when it is the
    /// root; `ResourceOverlap` when its range partially covers a large page.
    pub fn unmap_slice(&mut self, pmm: &mut PhysManager, mem: &mut PageTableMemory, slice: &SliceHandle) -> (r: Result<TlbFlush>)
        requires
            old(self).wf(),
            old(pmm).wf(),
            old(self).valid_slice(*slice),
        ensures
            final(self).wf(),
            final(pmm).wf(),
            old(self).spec_tree().slices@[slice.index as int].inner is None ==> r == Err::<TlbFlush, Error>(
                Error::InvalidState,
            ),
            old(self).spec_tree().slices@[slice.index as int].inner matches Some(inner) && inner.parent is None
                ==> r == Err::<TlbFlush, Error>(Error::InvalidArgument),
            r is Ok ==> final(self).spec_tree().slices@[slice.index as int].inner is None,
            final(self).spec_tree().slices@[slice.index as int].inner is None ==> forall|j: usize|
                #[trigger] below(old(self).spec_tree(), slice.index, j) ==> final(self).spec_tree().slices@[j as int].inner
                    is None,
            forall|vpn: usize|
                #[trigger] spec_lookup(*final(mem), old(self).spec_ops().spec_root_pt()@, 3, vpn) is None
                    || spec_lookup(*final(mem), old(self).spec_ops().spec_root_pt()@, 3, vpn) == spec_lookup(
                    *old(mem),
                    old(self).spec_ops().spec_root_pt()@,
                    3,
                    vpn,
                ),
    {
        proof {
            assert(self.tree.slice_wf(slice.index as int));
        }
        let parent = match self.tree.slices[slice.index].parent()? {
            Some(p) => p,
            None => {
                return Err(Error::InvalidArgument);
            },
        };
        let ghost before = *self;
        self.tree.remove_child(parent, slice.start)?;
        proof {
            assert(self.tree.slices@[slice.index as int] == before.tree.slices@[slice.index as int]);
            self.lemma_wf_tree(before);
        }
        let ghost before2 = *self;
        self.tree.detach_children(slice.index);
        proof {
            self.lemma_wf_tree(before2);
            assert forall|j: usize| #[trigger] below(old(self).spec_tree(), slice.index, j) implies below(
                before2.tree,
                slice.index,
                j,
            ) by {
                let m = choose|m: nat| m > 0 && #[trigger] reaches(old(self).spec_tree(), slice.index, j, m);
                lemma_reaches_same_from(old(self).spec_tree(), before2.tree, slice.index, j, m);
            }
        }
        self.do_unmap(pmm, mem, slice.start, slice.page_count)
    }

    /// Unmaps `mapping`: takes it out of its slice and unmaps its pages; returns the TLB flush that
    /// the unmapping needs. The mapping itself keeps its state.
    ///
    /// Errors: `InvalidState` when the mapping is detached or its slice no longer holds it;
    /// `ResourceOverlap` when its range partially covers a large page.
    pub fn unmap(&mut self, pmm: &mut PhysManager, mem: &mut PageTableMemory, mapping: &MappingHandle) -> (r: Result<TlbFlush>)
        requires
            old(self).wf(),
            old(pmm).wf(),
            old(self).valid_mapping(*mapping),
        ensures
            final(self).wf(),
            final(pmm).wf(),
            old(self).spec_tree().mappings@[mapping.index as int].inner is None ==> r == Err::<TlbFlush, Error>(
                Error::InvalidState,
            ),
            forall|vpn: usize|
                #[trigger] spec_lookup(*final(mem), old(self).spec_ops().spec_root_pt()@, 3, vpn) is None
                    || spec_lookup(*final(mem), old(self).spec_ops().spec_root_pt()@, 3, vpn) == spec_lookup(
                    *old(mem),
                    old(self).spec_ops().spec_root_pt()@,
                    3,
                    vpn,
                ),
    {
        let parent = self.tree.mappings[mapping.index].parent()?;
        let ghost before = *self;
        self.tree.remove_child(parent, mapping.start)?;
        proof {
            self.lemma_wf_tree(before);
        }
        self.do_unmap(pmm, mem, mapping.start, mapping.page_count)
    }

    /// Changing the tree without changing its arenas' mappings or length keeps the address space
    /// valid.
    proof fn lemma_wf_tree(&self, before: Self)
        requires
            before.wf(),
            self.spec_tree().wf(),
            self.spec_tree().slices@.len() == before.spec_tree().slices@.len(),
            self.spec_tree().mappings@ == before.spec_tree().mappings@,
            self.spec_objects() == before.spec_objects(),
        ensures
            self.wf(),
    {
        assert forall|m: int| 0 <= m < self.spec_tree().mappings@.len() implies {
            let mapping = #[trigger] self.spec_tree().mappings@[m];
            &&& mapping.object < self.spec_objects().len()
            &&& mapping.object_offset + mapping.page_count <= self.spec_objects()[mapping.object as int].spec_page_count()
            &&& mapping.inner matches Some(i) ==> i.parent < self.spec_tree().slices@.len()
        } by {
            assert(self.spec_tree().mappings@[m] == before.spec_tree().mappings@[m]);
        }
    }

    /// Changing objects without changing their sizes keeps the address space valid.
    proof fn lemma_wf_objects(&self, objects0: Seq<AnyVmObject>)
        requires
            self.spec_tree().wf(),
            self.spec_tree().slices@.len() >= 1,
            self.spec_objects().len() == objects0.len(),
            forall|o: int|
                0 <= o < objects0.len() ==> (#[trigger] self.spec_objects()[o]).spec_page_count()
                    == objects0[o].spec_page_count(),
            forall|m: int|
                0 <= m < self.spec_tree().mappings@.len() ==> {
                    let mapping = #[trigger] self.spec_tree().mappings@[m];
                    &&& mapping.object < objects0.len()
                    &&& mapping.object_offset + mapping.page_count <= objects0[mapping.object as int].spec_page_count()
                    &&& mapping.inner matches Some(i) ==> i.parent < self.spec_tree().slices@.len()
                },
        ensures
            self.wf(),
    {
        assert forall|m: int| 0 <= m < self.spec_tree().mappings@.len() implies {
            let mapping = #[trigger] self.spec_tree().mappings@[m];
            &&& mapping.object < self.spec_objects().len()
            &&& mapping.object_offset + mapping.page_count <= self.spec_objects()[mapping.object as int].spec_page_count()
            &&& mapping.inner matches Some(i) ==> i.parent < self.spec_tree().slices@.len()
        } by {
            let mapping = self.spec_tree().mappings@[m];
            assert(self.spec_objects()[mapping.object as int].spec_page_count()
                == objects0[mapping.object as int].spec_page_count());
        }
    }

    /// After a child is placed in the tree, the address space stays valid.
    proof fn lemma_wf_after_place(
        &self,
        old_self: Self,
        si: int,
        child: SliceChild,
        at: VirtPageNum,
        spec: NewChild,
    )
        requires
            old_self.wf(),
            self.spec_tree().wf(),
            self.spec_objects() == old_self.spec_objects(),
            placed(old_self.spec_tree(), self.spec_tree(), si, child, at, spec),
            0 <= si < old_self.spec_tree().slices@.len(),
            spec matches NewChild::Mapping { page_count, object, object_offset, .. } ==> object
                < self.spec_objects().len() && object_offset + page_count
                <= self.spec_objects()[object as int].spec_page_count(),
        ensures
            self.wf(),
    {
        let t0 = old_self.spec_tree();
        let t1 = self.spec_tree();
        assert forall|m: int| 0 <= m < t1.mappings@.len() implies {
            let mapping = #[trigger] t1.mappings@[m];
            &&& mapping.object < self.spec_objects().len()
            &&& mapping.object_offset + mapping.page_count <= self.spec_objects()[mapping.object as int].spec_page_count()
            &&& mapping.inner matches Some(i) ==> i.parent < t1.slices@.len()
        } by {
            if m < t0.mappings@.len() {
                assert(t1.mappings@[m] == t0.mappings@[m]);
                assert(t0.mappings@[m] == t0.mappings@[m]);
            }
        }
    }
}

} // verus!
