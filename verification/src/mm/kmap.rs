//! Mappings of VM objects and of physical memory into the kernel address space.
use vstd::prelude::*;
use crate::arch::PAGE_SIZE;
use crate::err::{Error, Result};
use super::pmm::PhysManager;
use super::pt::{mapping_ready, PageTableMemory};
use super::types::{CacheMode, PhysAddr, Protection, VirtAddr};
use super::utils::to_page_count;
use super::vm::aspace::{maps_frame, AddrSpace, AddrSpaceOps, MapBase, MappingHandle, SliceHandle, TlbFlush};
use super::vm::object::{AnyVmObject, PhysVmObject, VmObject};
use super::vm::tree::spec_dynamic_error;

verus! {

/// A mapping of a VM object into the kernel address space, owned by whoever made it; giving it
/// back with [`KernelMapping::unmap`] unmaps it.
pub struct KernelMapping(MappingHandle);

impl KernelMapping {
    /// The handle of the mapping.
    pub closed spec fn spec_handle(&self) -> MappingHandle {
        self.0
    }

    /// The handle of the mapping.
    pub fn handle(&self) -> (r: MappingHandle)
        ensures
            r == self.spec_handle(),
    {
        self.0
    }

    /// The base address of the mapping.
    pub fn addr(&self) -> (r: VirtAddr)
        requires
            self.spec_handle().start@ * PAGE_SIZE <= usize::MAX,
        ensures
            r@ == self.spec_handle().start@ * PAGE_SIZE,
    {
        self.0.start().addr()
    }

    /// Unmaps the mapping from `aspace`, the address space that holds it, and returns the TLB
    /// flush that the unmapping needs.
    ///
    /// Errors: those of [`AddrSpace::unmap`] (`InvalidState` when the mapping was detached).
    pub fn unmap<O: AddrSpaceOps>(
        self,
        aspace: &mut AddrSpace<O>,
        pmm: &mut PhysManager,
        mem: &mut PageTableMemory,
    ) -> (r: Result<TlbFlush>)
        requires
            old(aspace).wf(),
            old(pmm).wf(),
            old(aspace).valid_mapping(self.spec_handle()),
        ensures
            final(aspace).wf(),
            final(pmm).wf(),
            old(aspace).spec_tree().mappings@[self.spec_handle().index as int].inner is None ==> r
                == Err::<TlbFlush, Error>(Error::InvalidState),
    {
        aspace.unmap(pmm, mem, &self.0)
    }
}

/// A mapping of a range of physical bytes into the kernel address space: the pages holding them,
/// and where in the first page they start.
pub struct IoMapping {
    mapping: KernelMapping,
    page_offset: usize,
    len: usize,
}

impl IoMapping {
    /// The mapping of the pages.
    pub closed spec fn spec_mapping(&self) -> KernelMapping {
        self.mapping
    }

    /// Where the bytes start in the first page.
    pub closed spec fn spec_page_offset(&self) -> usize {
        self.page_offset
    }

    /// The number of bytes.
    pub closed spec fn spec_len(&self) -> usize {
        self.len
    }

    /// The mapping of the pages.
    pub fn mapping(&self) -> (r: &KernelMapping)
        ensures
            *r == self.spec_mapping(),
    {
        &self.mapping
    }

    /// The address of the first byte.
    pub fn addr(&self) -> (r: VirtAddr)
        requires
            self.spec_mapping().spec_handle().start@ * PAGE_SIZE + self.spec_page_offset() <= usize::MAX,
        ensures
            r@ == self.spec_mapping().spec_handle().start@ * PAGE_SIZE + self.spec_page_offset(),
    {
        self.mapping.addr().plus(self.page_offset)
    }

    /// The number of bytes.
    pub fn len(&self) -> (r: usize)
        ensures
            r == self.spec_len(),
    {
        self.len
    }
}

/// What mapping object `object` of `a1` whole and committing it left: a valid mapping `h` of all
/// of its pages from its start, every page of which has a frame, found mapped to it where the page
/// table and `pmm` were ready for mapping before (`m0`, `p0`) in the page table rooted at `root`.
pub open spec fn committed_whole<O: AddrSpaceOps>(
    a1: AddrSpace<O>,
    p0: PhysManager,
    m0: PageTableMemory,
    m1: PageTableMemory,
    object: int,
    h: MappingHandle,
) -> bool {
    let root = a1.spec_ops().spec_root_pt()@;
    let obj = a1.spec_objects()[object];
    &&& a1.valid_mapping(h)
    &&& h.object == object
    &&& h.object_offset == 0
    &&& h.page_count == obj.spec_page_count()
    &&& forall|k: int| 0 <= k < h.page_count ==> (#[trigger] obj.spec_frame(k)) is Some
    &&& mapping_ready(m0, root, p0) ==> forall|k: int|
        0 <= k < h.page_count ==> #[trigger] maps_frame(m1, root, h.start@ + k, obj.spec_frame(k))
}

/// Maps all of object `object` into slice `slice` of `aspace` wherever it fits, and commits every
/// page of it.
///
/// Errors: those of [`AddrSpace::map`] and of [`AddrSpace::commit`].
fn map_committed<O: AddrSpaceOps>(
    aspace: &mut AddrSpace<O>,
    pmm: &mut PhysManager,
    mem: &mut PageTableMemory,
    slice: &SliceHandle,
    page_count: usize,
    object: usize,
    prot: Protection,
) -> (r: Result<MappingHandle>)
    requires
        old(aspace).wf(),
        old(pmm).wf(),
        old(aspace).valid_slice(*slice),
        object < old(aspace).spec_objects().len(),
        page_count == old(aspace).spec_objects()[object as int].spec_page_count(),
    ensures
        final(aspace).wf(),
        final(pmm).wf(),
        final(aspace).spec_objects().len() == old(aspace).spec_objects().len(),
        final(aspace).spec_objects()[object as int].spec_page_count() == page_count,
        final(aspace).spec_ops() == old(aspace).spec_ops(),
        spec_dynamic_error(old(aspace).spec_tree().slices@[slice.index as int], page_count) matches Some(e)
            ==> r == Err::<MappingHandle, Error>(e),
        r matches Ok(h) ==> committed_whole(*final(aspace), *old(pmm), *old(mem), *final(mem), object as int, h),
{
    let mapping = aspace.map(slice, MapBase::any(), page_count, 0, object, prot)?;
    let ghost a1 = *aspace;
    proof {
        assert(aspace.spec_tree().wf());
    }
    aspace.commit(pmm, mem, &mapping, 0, page_count)?;
    proof {
        assert(aspace.spec_objects()[object as int].spec_page_count() == page_count);
        assert forall|k: int| 0 <= k < page_count implies (#[trigger] aspace.spec_objects()[object as int].spec_frame(k)) is Some by {
            assert(aspace.spec_objects()[object as int].spec_frame(0 + 0 + k) is Some);
        }
        let root = aspace.spec_ops().spec_root_pt()@;
        if mapping_ready(*old(mem), root, *old(pmm)) {
            assert forall|k: int| 0 <= k < page_count implies #[trigger] maps_frame(
                *mem,
                root,
                mapping.start@ + k,
                aspace.spec_objects()[object as int].spec_frame(k),
            ) by {
                assert(maps_frame(
                    *mem,
                    root,
                    mapping.start@ + 0 + k,
                    aspace.spec_objects()[object as int].spec_frame(0 + 0 + k),
                ));
            }
        }
        assert(committed_whole(*aspace, *old(pmm), *old(mem), *mem, object as int, mapping));
    }
    Ok(mapping)
}

/// Maps all of `object`, with protection `prot`, into the root slice of `aspace`, the kernel
/// address space, wherever it fits, and commits every page of it. The object is added to
/// `aspace` first and stays there.
///
/// Errors: those of [`AddrSpace::map`] (`OutOfResources` when no gap of the root slice holds the
/// object) and of [`AddrSpace::commit`].
pub fn kmap<O: AddrSpaceOps>(
    aspace: &mut AddrSpace<O>,
    pmm: &mut PhysManager,
    mem: &mut PageTableMemory,
    object: AnyVmObject,
    prot: Protection,
) -> (r: Result<KernelMapping>)
    requires
        old(aspace).wf(),
        old(pmm).wf(),
    ensures
        final(aspace).wf(),
        final(pmm).wf(),
        final(aspace).spec_objects().len() == old(aspace).spec_objects().len() + 1,
        final(aspace).spec_objects()[old(aspace).spec_objects().len() as int].spec_page_count()
            == object.spec_page_count(),
        final(aspace).spec_ops() == old(aspace).spec_ops(),
        spec_dynamic_error(old(aspace).spec_tree().slices@[0], object.spec_page_count()) matches Some(e) ==> r
            == Err::<KernelMapping, Error>(e),
        r matches Ok(km) ==> committed_whole(
            *final(aspace),
            *old(pmm),
            *old(mem),
            *final(mem),
            old(aspace).spec_objects().len() as int,
            km.spec_handle(),
        ),
{
    let page_count = object.page_count();
    let index = aspace.add_object(object);
    let root = aspace.root_slice();
    let mapping = map_committed(aspace, pmm, mem, &root, page_count, index, prot)?;
    Ok(KernelMapping(mapping))
}

/// Maps the physical bytes `base..base + len` into the root slice of `aspace`, the kernel address
/// space, with protection `prot` and cache mode `cache_mode`: the frames holding them, from the
/// one holding `base` to the one holding the last byte, become a [`PhysVmObject`] that is mapped
/// and committed whole.
///
/// Errors: those of [`kmap`].
pub fn iomap<O: AddrSpaceOps>(
    aspace: &mut AddrSpace<O>,
    pmm: &mut PhysManager,
    mem: &mut PageTableMemory,
    base: PhysAddr,
    len: usize,
    prot: Protection,
    cache_mode: CacheMode,
) -> (r: Result<IoMapping>)
    requires
        old(aspace).wf(),
        old(pmm).wf(),
        base@ % PAGE_SIZE + len + PAGE_SIZE <= usize::MAX,
        base@ as int / PAGE_SIZE as int + (base@ % PAGE_SIZE + len + PAGE_SIZE - 1) / PAGE_SIZE as int
            <= usize::MAX,
    ensures
        final(aspace).wf(),
        final(pmm).wf(),
        final(aspace).spec_ops() == old(aspace).spec_ops(),
        final(aspace).spec_objects().len() == old(aspace).spec_objects().len() + 1,
        spec_dynamic_error(
            old(aspace).spec_tree().slices@[0],
            ((base@ % PAGE_SIZE + len + PAGE_SIZE - 1) / PAGE_SIZE as int) as usize,
        ) matches Some(e) ==> r == Err::<IoMapping, Error>(e),
        r matches Ok(io) ==> {
            &&& io.spec_len() == len
            &&& io.spec_page_offset() == base@ % PAGE_SIZE
            &&& io.spec_mapping().spec_handle().page_count == (base@ % PAGE_SIZE + len + PAGE_SIZE - 1)
                / PAGE_SIZE as int
            &&& committed_whole(
                *final(aspace),
                *old(pmm),
                *old(mem),
                *final(mem),
                old(aspace).spec_objects().len() as int,
                io.spec_mapping().spec_handle(),
            )
        },
{
    let base_pfn = base.containing_frame();
    let page_offset = base.frame_offset();
    let object = PhysVmObject::new(base_pfn, to_page_count(page_offset + len), cache_mode);
    let ghost any = AnyVmObject::Phys(object);
    assert(any.spec_page_count() == (base@ % PAGE_SIZE + len + PAGE_SIZE - 1) / PAGE_SIZE as int);
    let mapping = kmap(aspace, pmm, mem, AnyVmObject::Phys(object), prot)?;
    let io = IoMapping { mapping, page_offset, len };
    proof {
        let n = old(aspace).spec_objects().len();
        assert(aspace.spec_objects()[n as int].spec_page_count() == any.spec_page_count());
        assert(committed_whole(*aspace, *old(pmm), *old(mem), *mem, n as int, mapping.spec_handle()));
        assert(io.spec_mapping().spec_handle().page_count == (base@ % PAGE_SIZE + len + PAGE_SIZE - 1)
            / PAGE_SIZE as int);
    }
    Ok(io)
}

} // verus!
