use corrosios::err::Error;
use corrosios::mm::pmm::{dump_usage, PhysManager};
use corrosios::mm::pt::PageTableMemory;
use corrosios::mm::types::{AccessMode, AccessType, PhysFrameNum, Protection, VirtAddr, VirtPageNum};
use corrosios::mm::vm::aspace::{access_allowed, get_commit_type, AddrSpaceOps, MapBase, TlbFlush};
use corrosios::mm::vm::is_low_addr;
use corrosios::mm::vm::low_aspace::make_low_addr_space;
use corrosios::mm::vm::object::{AnyVmObject, CommitType, EagerVmObject, LazyVmObject, PhysVmObject};
use corrosios::mm::vm::tree::{Name, NewChild, Slice, SliceChild, SliceTree};
use corrosios::mm::types::CacheMode;
use corrosios::mm::kmap::{iomap, kmap};
use corrosios::mm::types::PhysAddr;

fn rw() -> Protection {
    Protection { read: true, write: true, execute: false }
}

fn ro() -> Protection {
    Protection { read: true, write: false, execute: false }
}

fn pmm() -> PhysManager {
    let mut pmm = PhysManager::new(PhysFrameNum::new(4096));
    pmm.add_free_range(PhysFrameNum::new(0), PhysFrameNum::new(4096));
    pmm
}

fn tree(start: usize, pages: usize) -> SliceTree {
    SliceTree {
        slices: vec![Slice::new(None, b"root", VirtPageNum::new(start), pages)],
        mappings: Vec::new(),
    }
}

#[test]
fn names_are_cut_to_32_bytes() {
    let n = Name::new(&[b'a'; 40]);
    assert_eq!(n.as_bytes().len(), 32);
    let n = Name::new(b"short");
    assert_eq!(n.as_bytes(), b"short");
}

#[test]
fn commit_types_and_access() {
    assert_eq!(get_commit_type(AccessType::Write), CommitType::Write);
    assert_eq!(get_commit_type(AccessType::Read), CommitType::Read);
    assert!(access_allowed(AccessType::Read, ro()));
    assert!(!access_allowed(AccessType::Write, ro()));
    assert!(!access_allowed(AccessType::Execute, rw()));
}

#[test]
fn fixed_spot_is_placed_and_overlap_refused() {
    let mut t = tree(0x100, 0x100);
    let c = t
        .alloc_spot(0, Some(VirtPageNum::new(0x110)), 0x10, NewChild::Subslice { name: b"a".to_vec(), page_count: 0x10 })
        .unwrap();
    assert_eq!(c, SliceChild::Subslice(1));
    let e = t.alloc_spot(0, Some(VirtPageNum::new(0x118)), 4, NewChild::Subslice { name: b"b".to_vec(), page_count: 4 });
    assert_eq!(e, Err(Error::ResourceOverlap));
    let e = t.alloc_spot(0, Some(VirtPageNum::new(0x1ff)), 4, NewChild::Subslice { name: b"c".to_vec(), page_count: 4 });
    assert_eq!(e, Err(Error::InvalidArgument));
}

#[test]
fn dynamic_spot_takes_first_gap_that_fits() {
    let mut t = tree(0x100, 0x100);
    t.alloc_spot(0, Some(VirtPageNum::new(0x104)), 4, NewChild::Subslice { name: b"a".to_vec(), page_count: 4 })
        .unwrap();
    let c = t.alloc_spot(0, None, 8, NewChild::Subslice { name: b"b".to_vec(), page_count: 8 }).unwrap();
    assert_eq!(c, SliceChild::Subslice(2));
    assert_eq!(t.slices[2].start().as_usize(), 0x108);
    let gaps = t.iter_gaps_mut(0).unwrap();
    assert_eq!(gaps[0].start.as_usize(), 0x100);
    assert_eq!(gaps[0].page_count, 4);
}

#[test]
fn dynamic_spot_fails_when_full() {
    let mut t = tree(0x100, 0x10);
    let c = t.alloc_spot(0, None, 0x10, NewChild::Subslice { name: b"a".to_vec(), page_count: 0x10 });
    assert_eq!(c, Ok(SliceChild::Subslice(1)));
    assert_eq!(t.slices[1].start().as_usize(), 0x100);
    let e = t.alloc_spot(0, None, 1, NewChild::Subslice { name: b"b".to_vec(), page_count: 1 });
    assert_eq!(e, Err(Error::OutOfResources));
}

#[test]
fn removing_a_child_frees_its_spot() {
    let mut t = tree(0x100, 0x100);
    t.alloc_spot(0, Some(VirtPageNum::new(0x110)), 0x10, NewChild::Subslice { name: b"a".to_vec(), page_count: 0x10 })
        .unwrap();
    t.remove_child(0, VirtPageNum::new(0x110)).unwrap();
    assert_eq!(t.remove_child(0, VirtPageNum::new(0x110)), Err(Error::InvalidState));
    assert!(t
        .alloc_spot(0, Some(VirtPageNum::new(0x110)), 0x10, NewChild::Subslice { name: b"b".to_vec(), page_count: 0x10 })
        .is_ok());
}

#[test]
fn lookup_finds_mapping() {
    let mut t = tree(0x100, 0x100);
    t.alloc_spot(
        0,
        Some(VirtPageNum::new(0x120)),
        4,
        NewChild::Mapping { page_count: 4, object: 0, object_offset: 0, prot: rw() },
    )
    .unwrap();
    assert_eq!(t.get_mapping(0, VirtPageNum::new(0x121)), Ok(0));
    assert_eq!(t.get_mapping(0, VirtPageNum::new(0x130)), Err(Error::BadAddress));
}

#[test]
fn low_address_space_map_and_fault() {
    let mut pmm = pmm();
    let mut mem = PageTableMemory::new();
    let mut aspace = make_low_addr_space(&mut pmm, &mut mem, AccessMode::User).unwrap();
    let root = aspace.root_slice();
    let slice = aspace.create_subslice(&root, b"heap", MapBase::Fixed(VirtPageNum::new(0x1000)), 0x100).unwrap();
    assert_eq!(slice.start().as_usize(), 0x1000);
    let obj = aspace.add_object(AnyVmObject::Lazy(LazyVmObject::new(4)));
    let mapping = aspace.map(&slice, MapBase::Fixed(VirtPageNum::new(0x1010)), 4, 0, obj, rw()).unwrap();
    assert_eq!(mapping.start().as_usize(), 0x1010);
    assert_eq!(mapping.page_count(), 4);
    let before = dump_usage(&pmm).free_pages;
    aspace.fault(&mut pmm, &mut mem, VirtPageNum::new(0x1011), AccessType::Write).unwrap();
    assert_eq!(dump_usage(&pmm).free_pages + 1 <= before, true);
    assert_eq!(
        aspace.fault(&mut pmm, &mut mem, VirtPageNum::new(0x1011), AccessType::Execute),
        Err(Error::NoPerms)
    );
    assert_eq!(
        aspace.fault(&mut pmm, &mut mem, VirtPageNum::new(0x1050), AccessType::Read),
        Err(Error::BadAddress)
    );
}

#[test]
fn map_refuses_pages_outside_object() {
    let mut pmm = pmm();
    let mut mem = PageTableMemory::new();
    let mut aspace = make_low_addr_space(&mut pmm, &mut mem, AccessMode::User).unwrap();
    let root = aspace.root_slice();
    let obj = aspace.add_object(AnyVmObject::Lazy(LazyVmObject::new(2)));
    assert_eq!(aspace.map(&root, MapBase::any(), 3, 0, obj, rw()).err(), Some(Error::InvalidArgument));
    assert_eq!(aspace.map(&root, MapBase::any(), 1, 2, obj, rw()).err(), Some(Error::InvalidArgument));
}

#[test]
fn commit_then_unmap_reports_pages() {
    let mut pmm = pmm();
    let mut mem = PageTableMemory::new();
    let mut aspace = make_low_addr_space(&mut pmm, &mut mem, AccessMode::Kernel).unwrap();
    let root = aspace.root_slice();
    let obj = aspace.add_object(AnyVmObject::Eager(EagerVmObject::new(&mut pmm, 2).unwrap()));
    let mapping = aspace.map(&root, MapBase::Fixed(VirtPageNum::new(0x2000)), 2, 0, obj, ro()).unwrap();
    aspace.commit(&mut pmm, &mut mem, &mapping, 0, 2).unwrap();
    match aspace.unmap(&mut pmm, &mut mem, &mapping).unwrap() {
        TlbFlush::Specific(pages) => {
            let got: Vec<usize> = pages.iter().map(|p| p.as_usize()).collect();
            assert_eq!(got, vec![0x2000, 0x2001]);
        }
        TlbFlush::All => panic!("expected specific pages"),
    }
}

#[test]
fn phys_objects_provide_their_frames() {
    let mut pmm = pmm();
    let mut mem = PageTableMemory::new();
    let mut aspace = make_low_addr_space(&mut pmm, &mut mem, AccessMode::Kernel).unwrap();
    let root = aspace.root_slice();
    let obj = aspace.add_object(AnyVmObject::Phys(PhysVmObject::new(PhysFrameNum::new(0x800), 2, CacheMode::Uncached)));
    let mapping = aspace.map(&root, MapBase::any(), 2, 0, obj, rw()).unwrap();
    assert!(aspace.commit(&mut pmm, &mut mem, &mapping, 0, 2).is_ok());
}

#[test]
fn low_addresses() {
    assert!(is_low_addr(VirtAddr::new(0x1000)));
    assert!(!is_low_addr(VirtAddr::new(0x8_0000_0000 << 12)));
}

/// Follows the entries for `vpn` down from the table in frame `root`, as the hardware would.
fn translate(mem: &PageTableMemory, root: usize, vpn: usize) -> Option<usize> {
    let mut table = root;
    let mut level = 3usize;
    loop {
        let index = (vpn >> (9 * level)) & 511;
        let entry = mem.read(PhysFrameNum::new(table), index);
        if entry & 1 == 0 {
            return None;
        }
        let frame = ((entry & 0x000f_ffff_ffff_f000) >> 12) as usize;
        if level == 0 || entry & 0x80 != 0 {
            return Some(frame + (vpn & ((1usize << (9 * level)) - 1)));
        }
        table = frame;
        level -= 1;
    }
}

#[test]
fn fault_maps_the_page_to_its_frame() {
    let mut pmm = pmm();
    let mut mem = PageTableMemory::new();
    let mut aspace = make_low_addr_space(&mut pmm, &mut mem, AccessMode::User).unwrap();
    let root = aspace.root_slice();
    let slice = aspace.create_subslice(&root, b"data", MapBase::Fixed(VirtPageNum::new(0x1000)), 0x100).unwrap();
    let obj = aspace.add_object(AnyVmObject::Phys(PhysVmObject::new(PhysFrameNum::new(0x800), 4, CacheMode::Cached)));
    aspace.map(&slice, MapBase::Fixed(VirtPageNum::new(0x1010)), 4, 0, obj, rw()).unwrap();
    let root_pt = aspace.ops().root_pt().as_usize();
    assert_eq!(translate(&mem, root_pt, 0x1012), None);
    aspace.fault(&mut pmm, &mut mem, VirtPageNum::new(0x1012), AccessType::Read).unwrap();
    assert_eq!(translate(&mem, root_pt, 0x1012), Some(0x802));
    assert_eq!(translate(&mem, root_pt, 0x1013), None);
}

#[test]
fn faulting_a_page_twice_reports_the_overlap() {
    let mut pmm = pmm();
    let mut mem = PageTableMemory::new();
    let mut aspace = make_low_addr_space(&mut pmm, &mut mem, AccessMode::User).unwrap();
    let root = aspace.root_slice();
    let obj = aspace.add_object(AnyVmObject::Lazy(LazyVmObject::new(2)));
    aspace.map(&root, MapBase::Fixed(VirtPageNum::new(0x3000)), 2, 0, obj, rw()).unwrap();
    assert!(aspace.fault(&mut pmm, &mut mem, VirtPageNum::new(0x3001), AccessType::Read).is_ok());
    assert_eq!(
        aspace.fault(&mut pmm, &mut mem, VirtPageNum::new(0x3001), AccessType::Read),
        Err(Error::ResourceOverlap)
    );
}

#[test]
fn committing_nothing_succeeds() {
    let mut pmm = pmm();
    let mut mem = PageTableMemory::new();
    let mut aspace = make_low_addr_space(&mut pmm, &mut mem, AccessMode::Kernel).unwrap();
    let root = aspace.root_slice();
    let obj = aspace.add_object(AnyVmObject::Lazy(LazyVmObject::new(2)));
    let mapping = aspace.map(&root, MapBase::any(), 2, 0, obj, rw()).unwrap();
    let before = dump_usage(&pmm).free_pages;
    assert_eq!(aspace.commit(&mut pmm, &mut mem, &mapping, 0, 0), Ok(()));
    assert_eq!(dump_usage(&pmm).free_pages, before);
}

#[test]
fn unmapping_a_slice_detaches_everything_below_it() {
    let mut pmm = pmm();
    let mut mem = PageTableMemory::new();
    let mut aspace = make_low_addr_space(&mut pmm, &mut mem, AccessMode::Kernel).unwrap();
    let root = aspace.root_slice();
    let outer = aspace.create_subslice(&root, b"outer", MapBase::Fixed(VirtPageNum::new(0x1000)), 0x100).unwrap();
    let inner = aspace.create_subslice(&outer, b"inner", MapBase::Fixed(VirtPageNum::new(0x1010)), 0x10).unwrap();
    let deep = aspace.create_subslice(&inner, b"deep", MapBase::Fixed(VirtPageNum::new(0x1012)), 0x2).unwrap();
    let other = aspace.create_subslice(&root, b"other", MapBase::Fixed(VirtPageNum::new(0x2000)), 0x10).unwrap();
    aspace.unmap_slice(&mut pmm, &mut mem, &outer).unwrap();
    assert_eq!(aspace.unmap_slice(&mut pmm, &mut mem, &inner).err(), Some(Error::InvalidState));
    assert_eq!(aspace.unmap_slice(&mut pmm, &mut mem, &deep).err(), Some(Error::InvalidState));
    assert!(aspace.create_subslice(&other, b"still", MapBase::any(), 1).is_ok());
}

#[test]
fn kmap_maps_and_commits_the_whole_object() {
    let mut pmm = pmm();
    let mut mem = PageTableMemory::new();
    let mut aspace = make_low_addr_space(&mut pmm, &mut mem, AccessMode::Kernel).unwrap();
    let before = dump_usage(&pmm).free_pages;
    let km = kmap(&mut aspace, &mut pmm, &mut mem, AnyVmObject::Lazy(LazyVmObject::new(3)), rw()).unwrap();
    let h = km.handle();
    assert_eq!(h.page_count(), 3);
    assert_eq!(h.object_offset(), 0);
    assert_eq!(km.addr().as_usize(), h.start().as_usize() * 4096);
    assert!(dump_usage(&pmm).free_pages + 3 <= before);
    let root_pt = aspace.ops().root_pt().as_usize();
    for k in 0..3 {
        assert!(translate(&mem, root_pt, h.start().as_usize() + k).is_some());
    }
    assert!(km.unmap(&mut aspace, &mut pmm, &mut mem).is_ok());
    assert_eq!(translate(&mem, root_pt, h.start().as_usize()), None);
}

#[test]
fn iomap_keeps_the_offset_into_the_first_page() {
    let mut pmm = pmm();
    let mut mem = PageTableMemory::new();
    let mut aspace = make_low_addr_space(&mut pmm, &mut mem, AccessMode::Kernel).unwrap();
    let io = iomap(&mut aspace, &mut pmm, &mut mem, PhysAddr::new(0x80_1234), 0x2000, rw(), CacheMode::Uncached).unwrap();
    assert_eq!(io.len(), 0x2000);
    let h = io.mapping().handle();
    assert_eq!(h.page_count(), 3);
    assert_eq!(io.addr().as_usize(), h.start().as_usize() * 4096 + 0x234);
    let root_pt = aspace.ops().root_pt().as_usize();
    assert_eq!(translate(&mem, root_pt, h.start().as_usize()), Some(0x801));
    assert_eq!(translate(&mem, root_pt, h.start().as_usize() + 2), Some(0x803));
}
