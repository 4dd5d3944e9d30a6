//! The kernel's address space, over the higher half: the physmap and the kernel image are
//! reserved in it from the start.
use vstd::prelude::*;
use crate::arch::{
    kernel_aspace_base, kernel_aspace_end, phys_map_base, phys_map_max_pages,
    spec_kernel_aspace_base, spec_kernel_aspace_end, spec_phys_map_base, spec_phys_map_max_pages,
};
use crate::err::{Error, Result};
use crate::mm::early::KernelImage;
use crate::mm::pt::{
    first_walk_aligned, lemma_perms_after_protect, lemma_walk_aligned_after_protect, perms_ok,
    spec_lookup, spec_table_boundary, MappingPointer, NoopGather, PageTable, PageTableMemory,
};
use crate::mm::types::{
    PageTablePerms, PhysFrameNum, VirtPageNum, PERMS_EXECUTE, PERMS_GLOBAL, PERMS_READ,
    PERMS_WRITE,
};
use super::aspace::{AddrSpace, AddrSpaceOps, MapBase, SliceHandle};
use super::tree::{node_contains, overlaps, SliceChild, SliceChildNode, SPACE_MARGIN};

verus! {

/// Page table operations for the kernel's address space: the kernel's root table, with every
/// page global.
pub struct KernelAddrSpaceOps {
    pub root: PhysFrameNum,
}

impl AddrSpaceOps for KernelAddrSpaceOps {
    open spec fn spec_root_pt(&self) -> PhysFrameNum {
        self.root
    }

    open spec fn spec_base_perms(&self) -> PageTablePerms {
        PageTablePerms::spec_from_bits(PERMS_GLOBAL)
    }

    fn root_pt(&self) -> (r: PhysFrameNum) {
        self.root
    }

    fn base_perms(&self) -> (r: PageTablePerms) {
        PageTablePerms::from_bits(PERMS_GLOBAL)
    }
}

/// The name of the slice reserved for the physmap (`physmap`).
pub const PHYSMAP_NAME: [u8; 7] = [0x70, 0x68, 0x79, 0x73, 0x6d, 0x61, 0x70];

/// The name of the slice reserved for the kernel image (`kernel image`).
pub const KIMAGE_NAME: [u8; 12] = [0x6b, 0x65, 0x72, 0x6e, 0x65, 0x6c, 0x20, 0x69, 0x6d, 0x61, 0x67, 0x65];

/// How creating the kernel's address space for `kimage` goes: the error reported, or `None`.
/// The physmap is reserved first, then the kernel image, both at fixed pages of the higher half.
pub open spec fn kernel_aspace_init_error(kimage: KernelImage) -> Option<Error> {
    let base = spec_kernel_aspace_base() as int;
    let end = spec_kernel_aspace_end() as int;
    let pb = spec_phys_map_base() as int;
    let pe = pb + spec_phys_map_max_pages();
    let kb = kimage.virt_base@ as int;
    let ke = kb + kimage.total_pages;
    if pe > usize::MAX || pb < base || pe > end {
        Some(Error::InvalidArgument)
    } else if ke > usize::MAX || kb < base || ke > end {
        Some(Error::InvalidArgument)
    } else if (pb <= kb < pe) || (kb < pb < ke) {
        Some(Error::ResourceOverlap)
    } else {
        None
    }
}

/// Creates the kernel's address space over the higher half, with the page table rooted at
/// `root`, and reserves in it the physmap and the pages of `kimage`, as subslices 1 and 2 of
/// the root.
///
/// Errors: `InvalidArgument` when a reservation does not lie in the higher half;
/// `ResourceOverlap` when the kernel image overlaps the physmap.
pub fn init(root: PhysFrameNum, kimage: KernelImage) -> (r: Result<AddrSpace<KernelAddrSpaceOps>>)
    requires
        usize::BITS == 64,
    ensures
        r is Ok <==> kernel_aspace_init_error(kimage) is None,
        r matches Err(e) ==> kernel_aspace_init_error(kimage) == Some(e),
        r matches Ok(aspace) ==> {
            &&& aspace.wf()
            &&& aspace.spec_ops().root == root
            &&& aspace.spec_tree().slices@.len() == 3
            &&& aspace.spec_tree().slices@[0].start@ == spec_kernel_aspace_base()
            &&& aspace.spec_tree().slices@[0].page_count == spec_kernel_aspace_end() - spec_kernel_aspace_base()
            &&& aspace.spec_tree().slices@[1].start@ == spec_phys_map_base()
            &&& aspace.spec_tree().slices@[1].page_count == spec_phys_map_max_pages()
            &&& aspace.spec_tree().slices@[2].start == kimage.virt_base
            &&& aspace.spec_tree().slices@[2].page_count == kimage.total_pages
            &&& aspace.spec_tree().mappings@.len() == 0
        },
{
    proof {
        assert(spec_kernel_aspace_base() == 0xf_fff8_0000_0000);
        assert(spec_kernel_aspace_end() == 0x10_0000_0000_0000);
        assert(spec_phys_map_base() == 0xf_fff8_0000_0000);
        assert(spec_phys_map_max_pages() == 0x4_0000_0000);
    }
    let mut aspace = AddrSpace::new(kernel_aspace_base()..kernel_aspace_end(), KernelAddrSpaceOps { root });
    let root_slice = aspace.root_slice();
    let ghost a0 = aspace;
    let physmap = aspace.create_subslice(
        &root_slice,
        PHYSMAP_NAME.as_slice(),
        MapBase::Fixed(phys_map_base()),
        phys_map_max_pages(),
    )?;
    let ghost a1 = aspace;
    proof {
        let pnode = SliceChildNode {
            start: physmap.start,
            page_count: spec_phys_map_max_pages(),
            data: SliceChild::Subslice(1),
        };
        assert(a0.spec_tree().slices@[0].inner matches Some(i) && i.children@.len() == 0);
        assert(a1.spec_tree().slices@[0].inner matches Some(i) && i.children@ =~= seq![pnode]);
        assert(a1.valid_slice(root_slice));
        let kb = kimage.virt_base@ as int;
        let ke = kb + kimage.total_pages;
        if overlaps(seq![pnode], kb, ke) {
            let k = choose|k: int| 0 <= k < 1 && (node_contains(#[trigger] seq![pnode][k], kb as usize) || (kb
                < seq![pnode][k].start@ < ke));
            assert(k == 0);
        }
        if (spec_phys_map_base() <= kb < spec_phys_map_base() + spec_phys_map_max_pages()) {
            assert(node_contains(seq![pnode][0], kb as usize));
        } else if kb < spec_phys_map_base() < ke {
            assert(kb < seq![pnode][0].start@ < ke);
        }
    }
    let kernel_image = aspace.create_subslice(
        &root_slice,
        KIMAGE_NAME.as_slice(),
        MapBase::Fixed(kimage.virt_base),
        kimage.total_pages,
    )?;
    proof {
        assert(aspace.valid_slice(root_slice));
        assert(aspace.valid_slice(physmap));
    }
    Ok(aspace)
}

/// The pages of the kernel image's sections.
#[derive(Clone, Copy, Debug, PartialEq, Eq, Structural)]
pub struct KernelImageLayout {
    pub code_base: VirtPageNum,
    pub code_pages: usize,
    pub rodata_base: VirtPageNum,
    pub rodata_pages: usize,
    pub data_base: VirtPageNum,
    pub data_pages: usize,
}

/// Whether page `vpn` lies among the `pages` pages from `base`, and among the pages covered by
/// the top-level table from `base` on.
pub open spec fn in_section(base: usize, pages: usize, vpn: usize) -> bool {
    base <= vpn < base + pages && vpn < spec_table_boundary(base as int, 3)
}

/// Gives the sections of the kernel image their final permissions in the page table rooted at
/// `root`: code executable, read-only data readable, data readable and writable, all global.
/// The caller flushes the TLB afterwards.
///
/// On success each page of a section has that section's permissions, or those of a section
/// given its permissions after it (where sections share entries), wherever the walk for the
/// section's first page meets an empty entry only at the first page of that entry's span (as
/// for [`PageTable::protect`]).
///
/// Errors: `ResourceOverlap` when a section partially covers a large page.
pub fn protect_kimage(mem: &mut PageTableMemory, root: PhysFrameNum, layout: KernelImageLayout) -> (r: Result<()>)
    requires
        layout.code_base@ + layout.code_pages + SPACE_MARGIN <= usize::MAX,
        layout.rodata_base@ + layout.rodata_pages + SPACE_MARGIN <= usize::MAX,
        layout.data_base@ + layout.data_pages + SPACE_MARGIN <= usize::MAX,
    ensures
        forall|vpn: usize|
            #[trigger] spec_lookup(*final(mem), root@, 3, vpn) == spec_lookup(*old(mem), root@, 3, vpn),
        r is Ok ==> {
            let code = PageTablePerms::spec_from_bits(PERMS_EXECUTE | PERMS_GLOBAL);
            let rodata = PageTablePerms::spec_from_bits(PERMS_READ | PERMS_GLOBAL);
            let data = PageTablePerms::spec_from_bits(PERMS_READ | PERMS_WRITE | PERMS_GLOBAL);
            &&& first_walk_aligned(*old(mem), root@, 3, layout.code_base@) ==> forall|vpn: usize|
                #[trigger] in_section(layout.code_base@, layout.code_pages, vpn) ==> perms_ok(
                    *final(mem),
                    root@,
                    3,
                    vpn,
                    code,
                ) || perms_ok(*final(mem), root@, 3, vpn, rodata) || perms_ok(*final(mem), root@, 3, vpn, data)
            &&& first_walk_aligned(*old(mem), root@, 3, layout.rodata_base@) ==> forall|vpn: usize|
                #[trigger] in_section(layout.rodata_base@, layout.rodata_pages, vpn) ==> perms_ok(
                    *final(mem),
                    root@,
                    3,
                    vpn,
                    rodata,
                ) || perms_ok(*final(mem), root@, 3, vpn, data)
            &&& first_walk_aligned(*old(mem), root@, 3, layout.data_base@) ==> forall|vpn: usize|
                #[trigger] in_section(layout.data_base@, layout.data_pages, vpn) ==> perms_ok(
                    *final(mem),
                    root@,
                    3,
                    vpn,
                    data,
                )
        },
{
    let ghost code = PageTablePerms::spec_from_bits(PERMS_EXECUTE | PERMS_GLOBAL);
    let ghost rodata = PageTablePerms::spec_from_bits(PERMS_READ | PERMS_GLOBAL);
    let ghost data = PageTablePerms::spec_from_bits(PERMS_READ | PERMS_WRITE | PERMS_GLOBAL);
    let ghost mem0 = *mem;
    let mut pt = PageTable::new(root);
    let mut pointer = MappingPointer::new(layout.code_base, layout.code_pages);
    let r1 = pt.protect(mem, &mut NoopGather, &mut pointer, PageTablePerms::from_bits(PERMS_EXECUTE | PERMS_GLOBAL));
    let ghost mem1 = *mem;
    if r1.is_err() {
        return r1;
    }
    let mut pointer = MappingPointer::new(layout.rodata_base, layout.rodata_pages);
    let r2 = pt.protect(mem, &mut NoopGather, &mut pointer, PageTablePerms::from_bits(PERMS_READ | PERMS_GLOBAL));
    let ghost mem2 = *mem;
    proof {
        assert forall|vpn: usize| #[trigger] spec_lookup(mem2, root@, 3, vpn) == spec_lookup(mem0, root@, 3, vpn) by {
            assert(spec_lookup(mem2, root@, 3, vpn) == spec_lookup(mem1, root@, 3, vpn));
            assert(spec_lookup(mem1, root@, 3, vpn) == spec_lookup(mem0, root@, 3, vpn));
        }
    }
    if r2.is_err() {
        return r2;
    }
    let mut pointer = MappingPointer::new(layout.data_base, layout.data_pages);
    let r3 = pt.protect(
        mem,
        &mut NoopGather,
        &mut pointer,
        PageTablePerms::from_bits(PERMS_READ | PERMS_WRITE | PERMS_GLOBAL),
    );
    proof {
        let root_ = root@;
        if first_walk_aligned(mem0, root_, 3, layout.rodata_base@) {
            lemma_walk_aligned_after_protect(mem0, mem1, code, root_, 3, layout.rodata_base@);
        }
        if first_walk_aligned(mem0, root_, 3, layout.data_base@) {
            lemma_walk_aligned_after_protect(mem0, mem1, code, root_, 3, layout.data_base@);
            lemma_walk_aligned_after_protect(mem1, mem2, rodata, root_, 3, layout.data_base@);
        }
        if r3 is Ok {
            if first_walk_aligned(mem0, root_, 3, layout.code_base@) {
                assert forall|vpn: usize| #[trigger] in_section(layout.code_base@, layout.code_pages, vpn) implies perms_ok(
                    *mem,
                    root_,
                    3,
                    vpn,
                    code,
                ) || perms_ok(*mem, root_, 3, vpn, rodata) || perms_ok(*mem, root_, 3, vpn, data) by {
                    assert(perms_ok(mem1, root_, 3, vpn, code));
                    lemma_perms_after_protect(mem1, mem2, code, rodata, root_, 3, vpn);
                    if perms_ok(mem2, root_, 3, vpn, code) {
                        lemma_perms_after_protect(mem2, *mem, code, data, root_, 3, vpn);
                    } else {
                        lemma_perms_after_protect(mem2, *mem, rodata, data, root_, 3, vpn);
                    }
                }
            }
            if first_walk_aligned(mem0, root_, 3, layout.rodata_base@) {
                assert forall|vpn: usize| #[trigger] in_section(layout.rodata_base@, layout.rodata_pages, vpn) implies perms_ok(
                    *mem,
                    root_,
                    3,
                    vpn,
                    rodata,
                ) || perms_ok(*mem, root_, 3, vpn, data) by {
                    assert(perms_ok(mem2, root_, 3, vpn, rodata));
                    lemma_perms_after_protect(mem2, *mem, rodata, data, root_, 3, vpn);
                }
            }
        }
        assert forall|vpn: usize| #[trigger] spec_lookup(*mem, root@, 3, vpn) == spec_lookup(mem0, root@, 3, vpn) by {
            assert(spec_lookup(*mem, root@, 3, vpn) == spec_lookup(mem2, root@, 3, vpn));
            assert(spec_lookup(mem2, root@, 3, vpn) == spec_lookup(mem0, root@, 3, vpn));
        }
    }
    r3
}

} // verus!
