//! Address spaces for the low (user) half of the address space.
use vstd::prelude::*;
use crate::arch::{low_aspace_base, low_aspace_end, spec_low_aspace_base, spec_low_aspace_end};
use crate::err::Result;
use crate::mm::pmm::{alloc_frame, PhysManager};
use crate::mm::pt::PageTableMemory;
use crate::mm::types::{AccessMode, PageTablePerms, PhysFrameNum, PERMS_USER};
use super::aspace::{AddrSpace, AddrSpaceOps};
use super::tree::SPACE_MARGIN;

verus! {

/// Page table operations for a low address space: its own root table, and whether its pages can
/// be reached from user mode.
pub struct LowAddrSpaceOps {
    pub root_pt: PhysFrameNum,
    pub allowed_access_mode: AccessMode,
}

impl AddrSpaceOps for LowAddrSpaceOps {
    open spec fn spec_root_pt(&self) -> PhysFrameNum {
        self.root_pt
    }

    open spec fn spec_base_perms(&self) -> PageTablePerms {
        match self.allowed_access_mode {
            AccessMode::User => PageTablePerms::spec_from_bits(PERMS_USER),
            AccessMode::Kernel => PageTablePerms::spec_from_bits(0),
        }
    }

    fn root_pt(&self) -> (r: PhysFrameNum) {
        self.root_pt
    }

    fn base_perms(&self) -> (r: PageTablePerms) {
        match self.allowed_access_mode {
            AccessMode::User => PageTablePerms::from_bits(PERMS_USER),
            AccessMode::Kernel => PageTablePerms::empty(),
        }
    }
}

/// An address space over the low half of the address space.
pub type LowAddrSpace = AddrSpace<LowAddrSpaceOps>;

/// Allocates and clears a root page table for a low address space. The entries of the kernel's
/// half are filled in by the architecture code.
///
/// Errors: `OutOfMemory` when no frame is free.
pub fn make_root_pt(pmm: &mut PhysManager, mem: &mut PageTableMemory) -> (r: Result<PhysFrameNum>)
    requires
        old(pmm).wf(),
    ensures
        final(pmm).wf(),
        r matches Ok(root) ==> forall|i: int| 0 <= i < 512 ==> final(mem).spec_entry(root@, i) == 0,
{
    let root = alloc_frame(pmm)?;
    mem.clear_table(root);
    Ok(root)
}

/// Creates an empty low address space whose pages can be reached from `allowed_access_mode`,
/// with a fresh root page table.
///
/// Errors: `OutOfMemory` when no frame is free for the root table.
pub fn make_low_addr_space(pmm: &mut PhysManager, mem: &mut PageTableMemory, allowed_access_mode: AccessMode) -> (r: Result<LowAddrSpace>)
    requires
        old(pmm).wf(),
        spec_low_aspace_base() <= spec_low_aspace_end(),
        spec_low_aspace_end() + SPACE_MARGIN <= usize::MAX,
    ensures
        final(pmm).wf(),
        r matches Ok(aspace) ==> {
            &&& aspace.wf()
            &&& aspace.spec_tree().slices@.len() == 1
            &&& aspace.spec_tree().slices@[0].start@ == spec_low_aspace_base()
            &&& aspace.spec_tree().slices@[0].page_count == spec_low_aspace_end() - spec_low_aspace_base()
            &&& aspace.spec_ops().allowed_access_mode == allowed_access_mode
            &&& forall|i: int| 0 <= i < 512 ==> final(mem).spec_entry(aspace.spec_ops().root_pt@, i) == 0
        },
{
    let root_pt = make_root_pt(pmm, mem)?;
    let ops = LowAddrSpaceOps { root_pt, allowed_access_mode };
    Ok(AddrSpace::new(low_aspace_base()..low_aspace_end(), ops))
}

} // verus!
