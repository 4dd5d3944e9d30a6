//! The virtual memory subsystem: address spaces made of slices and mappings of VM objects.
pub mod tree;
pub mod object;
pub mod aspace;
pub mod low_aspace;
pub mod kernel_aspace;
use vstd::prelude::*;
use crate::arch::{low_aspace_end, spec_low_aspace_end, PAGE_SIZE};
use crate::err::{Error, Result};
use crate::mm::early::KernelImage;
use crate::mm::pmm::PhysManager;
use crate::mm::pt::{spec_lookup, PageTableMemory};
use crate::mm::types::{AccessType, PhysFrameNum, VirtAddr, VirtPageNum};
use crate::sched::Scheduler;
use self::aspace::{fault_outcome, AddrSpace};
use self::kernel_aspace::{kernel_aspace_init_error, protect_kimage, KernelAddrSpaceOps, KernelImageLayout};

verus! {

/// Creates the kernel's address space over the higher half with the page table rooted at `root`,
/// reserving the physmap and the kernel image in it, and then gives the sections of the kernel
/// image their final permissions in that page table.
///
/// Errors: those of [`kernel_aspace::init`] and then those of [`kernel_aspace::protect_kimage`].
pub fn init(
    root: PhysFrameNum,
    kimage: KernelImage,
    mem: &mut PageTableMemory,
    layout: KernelImageLayout,
) -> (r: Result<AddrSpace<KernelAddrSpaceOps>>)
    requires
        usize::BITS == 64,
        layout.code_base@ + layout.code_pages + 0x800_0000 <= usize::MAX,
        layout.rodata_base@ + layout.rodata_pages + 0x800_0000 <= usize::MAX,
        layout.data_base@ + layout.data_pages + 0x800_0000 <= usize::MAX,
    ensures
        forall|vpn: usize|
            #[trigger] spec_lookup(*final(mem), root@, 3, vpn) == spec_lookup(*old(mem), root@, 3, vpn),
        kernel_aspace_init_error(kimage) matches Some(e) ==> r == Err::<AddrSpace<KernelAddrSpaceOps>, Error>(e),
        r matches Ok(aspace) ==> {
            &&& kernel_aspace_init_error(kimage) is None
            &&& aspace.wf()
            &&& aspace.spec_ops().root == root
            &&& aspace.spec_tree().slices@.len() == 3
            &&& aspace.spec_tree().slices@[2].start == kimage.virt_base
            &&& aspace.spec_tree().slices@[2].page_count == kimage.total_pages
        },
{
    let aspace = kernel_aspace::init(root, kimage)?;
    protect_kimage(mem, root, layout)?;
    Ok(aspace)
}

/// Whether `addr` lies in the low (user) half of the address space.
pub fn is_low_addr(addr: VirtAddr) -> (r: bool)
    ensures
        r == ((addr@ as int / PAGE_SIZE as int) < spec_low_aspace_end()),
{
    addr.containing_page().as_usize() < low_aspace_end().as_usize()
}

/// Handles a page fault on `addr` by an access of `access_type`, in the low address space of the
/// thread running on the processor.
///
/// Errors: `BadAddress` when `addr` is not in the low half or the current thread has no low
/// address space; `InvalidState` when no thread is running; otherwise those of
/// [`AddrSpace::fault`](aspace::AddrSpace::fault).
pub fn page_fault(
    sched: &mut Scheduler,
    pmm: &mut PhysManager,
    mem: &mut PageTableMemory,
    addr: VirtAddr,
    access_type: AccessType,
) -> (r: Result<()>)
    requires
        old(sched).wf(),
        old(pmm).wf(),
    ensures
        final(sched).wf(),
        final(pmm).wf(),
        final(sched).spec_cpu() == old(sched).spec_cpu(),
        !((addr@ as int / PAGE_SIZE as int) < spec_low_aspace_end()) ==> r == Err::<(), Error>(Error::BadAddress),
        (addr@ as int / PAGE_SIZE as int) < spec_low_aspace_end() ==> {
            &&& old(sched).spec_cpu().spec_current() is None ==> r == Err::<(), Error>(Error::InvalidState)
            &&& old(sched).spec_cpu().spec_current() matches Some(t) ==> {
                &&& old(sched).spec_threads()[t as int].spec_addr_space() is None ==> r == Err::<(), Error>(
                    Error::BadAddress,
                )
                &&& old(sched).spec_threads()[t as int].spec_addr_space() matches Some(a) ==> (a.fault_error(
                    VirtPageNum::spec_new((addr@ as int / PAGE_SIZE as int) as usize),
                    access_type,
                ) matches Some(e) ==> r == Err::<(), Error>(e))
                &&& old(sched).spec_threads()[t as int].spec_addr_space() matches Some(a) ==> (
                    final(sched).spec_threads()[t as int].spec_addr_space() matches Some(b) && fault_outcome(
                    a,
                    b,
                    *old(pmm),
                    *final(pmm),
                    *old(mem),
                    *final(mem),
                    VirtPageNum::spec_new((addr@ as int / PAGE_SIZE as int) as usize),
                    access_type,
                    r,
                ))
            }
        },
{
    if !is_low_addr(addr) {
        return Err(Error::BadAddress);
    }
    let current = match sched.current() {
        Some(t) => t,
        None => {
            return Err(Error::InvalidState);
        },
    };
    let vpn = addr.containing_page();
    proof {
        VirtPageNum::lemma_spec_new(vpn);
    }
    sched.fault_in_thread(current, pmm, mem, vpn, access_type)
}

} // verus!
