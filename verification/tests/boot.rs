use corrosios::err::Error;
use corrosios::mm::early::{BumpPageTableAlloc, EarlyMapPfnTranslator, EarlyMapper, KernelImage};
use corrosios::mm::init::{
    early_usable_ranges, gather_reserved_ranges, highest_usable_pfn, init_early, init_late,
    largest_early_usable_range, map_bootinfo, usable_page_count,
};
use corrosios::mm::pmm::dump_usage;
use corrosios::mm::pt::map::{MapError, Mapper};
use corrosios::mm::pt::walk::{Step, Walker};
use corrosios::mm::pt::{MappingPointer, NoopGather, PageTable, PageTableMemory};
use corrosios::mm::types::{CacheMode, PageTablePerms, PhysAddr, PhysFrameNum, VirtPageNum, PERMS_READ, PERMS_WRITE};
use corrosios::mm::utils::{MemoryKind, MemoryRange};

fn pfn(n: usize) -> PhysFrameNum {
    PhysFrameNum::new(n)
}

fn rw() -> PageTablePerms {
    PageTablePerms::from_bits(PERMS_READ | PERMS_WRITE)
}

fn kimage() -> KernelImage {
    KernelImage { phys_base: pfn(0x200), virt_base: VirtPageNum::new(0xf_ffff_fff8_0000), total_pages: 0x40 }
}

fn map() -> Vec<MemoryRange> {
    vec![
        MemoryRange { start_page: 0, page_count: 0x100, kind: MemoryKind::Reserved },
        MemoryRange { start_page: 0x100, page_count: 0x700, kind: MemoryKind::Usable },
        MemoryRange { start_page: 0x800, page_count: 0x100, kind: MemoryKind::FirmwareBoot },
        MemoryRange { start_page: 0x900, page_count: 0x300, kind: MemoryKind::Usable },
    ]
}

#[test]
fn page_table_map_then_unmap() {
    let mut mem = PageTableMemory::new();
    let mut alloc = BumpPageTableAlloc::new(pfn(0x10), pfn(0x20));
    let mut pt = PageTable::new(pfn(1));
    let mut pointer = MappingPointer::new(VirtPageNum::new(0x400), 4);
    pt.map(&mut mem, &mut alloc, &mut pointer, pfn(0x80), rw(), CacheMode::Cached).unwrap();
    assert_eq!(pointer.offset(), 4);
    let mut again = MappingPointer::new(VirtPageNum::new(0x402), 1);
    assert_eq!(
        pt.map(&mut mem, &mut alloc, &mut again, pfn(0x90), rw(), CacheMode::Cached),
        Err(Error::ResourceOverlap)
    );
    let mut unmap = MappingPointer::new(VirtPageNum::new(0x400), 4);
    pt.unmap(&mut mem, &mut NoopGather, &mut unmap).unwrap();
    let mut remap = MappingPointer::new(VirtPageNum::new(0x402), 1);
    assert!(pt.map(&mut mem, &mut alloc, &mut remap, pfn(0x90), rw(), CacheMode::Cached).is_ok());
    let mut protect = MappingPointer::new(VirtPageNum::new(0x402), 1);
    assert!(pt.protect(&mut mem, &mut NoopGather, &mut protect, PageTablePerms::from_bits(PERMS_READ)).is_ok());
}

#[test]
fn page_table_allocation_failure() {
    let mut mem = PageTableMemory::new();
    let mut alloc = BumpPageTableAlloc::new(pfn(0x10), pfn(0x11));
    let mut pt = PageTable::new(pfn(1));
    let mut pointer = MappingPointer::new(VirtPageNum::new(0x400), 1);
    assert_eq!(
        pt.map(&mut mem, &mut alloc, &mut pointer, pfn(0x80), rw(), CacheMode::Cached),
        Err(Error::OutOfMemory)
    );
}

#[test]
fn bump_allocator_hands_out_consecutive_frames() {
    let mut alloc = BumpPageTableAlloc::new(pfn(5), pfn(7));
    assert_eq!(alloc.allocate_frame(), Ok(pfn(5)));
    assert_eq!(alloc.allocate_frame(), Ok(pfn(6)));
    assert_eq!(alloc.allocate_frame(), Err(Error::OutOfMemory));
}

#[test]
fn mapper_maps_single_pages() {
    let mut mem = PageTableMemory::new();
    let mut alloc = BumpPageTableAlloc::new(pfn(0x10), pfn(0x20));
    let translator = EarlyMapPfnTranslator::new(pfn(0)..pfn(0x1000), kimage());
    let mut mapper = Mapper::new(pfn(1), translator);
    assert_eq!(mapper.map(&mut mem, &mut alloc, VirtPageNum::new(0x777), pfn(0x55), rw()), Ok(()));
    assert_eq!(
        mapper.map(&mut mem, &mut alloc, VirtPageNum::new(0x777), pfn(0x56), rw()),
        Err(MapError::EntryExists)
    );
    let mut empty = BumpPageTableAlloc::new(pfn(0x30), pfn(0x30));
    assert_eq!(
        mapper.map(&mut mem, &mut empty, VirtPageNum::new(0x7777_7777), pfn(0x57), rw()),
        Err(MapError::AllocFailed)
    );
}

#[test]
fn walker_steps_down() {
    let mut mem = PageTableMemory::new();
    let mut alloc = BumpPageTableAlloc::new(pfn(0x10), pfn(0x20));
    let walker = Walker::new(EarlyMapPfnTranslator::new(pfn(0)..pfn(0x1000), kimage()));
    assert_eq!(walker.next_table(&mem, pfn(1), 3, 3), Step::Empty);
    assert_eq!(walker.next_table_or_create(&mut mem, pfn(1), 3, 3, &mut alloc), Ok(Step::Table(pfn(0x10))));
    assert_eq!(walker.next_table(&mem, pfn(1), 3, 3), Step::Table(pfn(0x10)));
    assert_eq!(walker.next_table_or_create(&mut mem, pfn(1), 3, 3, &mut alloc), Ok(Step::Table(pfn(0x10))));
}

#[test]
fn translator_maps_kernel_and_identity() {
    let t = EarlyMapPfnTranslator::new(pfn(0)..pfn(0x1000), kimage());
    let k = kimage();
    assert!(k.contains_phys(pfn(0x210)));
    assert!(!k.contains_phys(pfn(0x240)));
    assert_eq!(k.vpn_from_kernel_pfn(pfn(0x201)).as_usize(), k.virt_base.as_usize() + 1);
    assert_eq!(k.pfn_from_kernel_vpn(k.virt_base.plus(2)).as_usize(), 0x202);
    let _ = t;
}

#[test]
fn early_mapper_records_and_unmaps() {
    let mut mem = PageTableMemory::new();
    let mut mapper = EarlyMapper::new(pfn(1), BumpPageTableAlloc::new(pfn(0x10), pfn(0x20)));
    assert_eq!(mapper.map(&mut mem, pfn(0x300), 2).unwrap().as_usize(), 0x300);
    let vpn = map_bootinfo(&mut mapper, &mut mem, PhysAddr::new(0x400_010), 0x2000).unwrap();
    assert_eq!(vpn.as_usize(), 0x400);
    assert!(mapper.unmap_all(&mut mem).is_ok());
}

#[test]
fn usable_ranges_of_the_map() {
    let m = map();
    let r = early_usable_ranges(&m);
    let got: Vec<(usize, usize)> = r.iter().map(|x| (x.start.as_usize(), x.end.as_usize())).collect();
    assert_eq!(got, vec![(0x100, 0x800), (0x900, 0xc00)]);
    assert_eq!(highest_usable_pfn(&m).as_usize(), 0xc00);
    assert_eq!(usable_page_count(&m), 0xa00);
}

#[test]
fn reserved_ranges_are_sorted() {
    let r = gather_reserved_ranges(pfn(0x150)..pfn(0x152), kimage());
    let got: Vec<(usize, usize)> =
        r.as_slice().iter().map(|x| (x.start.as_usize(), x.end.as_usize())).collect();
    assert_eq!(got, vec![(0, 0x100), (0x150, 0x152), (0x200, 0x240)]);
}

#[test]
fn largest_range_avoids_reserved() {
    let m = map();
    let reserved = vec![pfn(0x150)..pfn(0x152), pfn(0x200)..pfn(0x240)];
    let r = largest_early_usable_range(&m, &reserved);
    assert_eq!((r.start.as_usize(), r.end.as_usize()), (0x240, 0x800));
}

#[test]
fn init_early_then_late() {
    let m = map();
    let mut mem = PageTableMemory::new();
    let mut mapper = EarlyMapper::new(pfn(1), BumpPageTableAlloc::new(pfn(0x10), pfn(0x40)));
    let ctx = init_early(&m, PhysAddr::new(0x150_000), 0x1000, kimage(), &mut mapper, &mut mem, pfn(2)).unwrap();
    let reserved: Vec<(usize, usize)> =
        ctx.reserved_ranges().iter().map(|x| (x.start.as_usize(), x.end.as_usize())).collect();
    assert_eq!(reserved.len(), 3);
    assert_eq!(reserved[0], (0, 0x100));
    let (pmm, added) = init_late(ctx, &m);
    let usage = dump_usage(&pmm);
    assert_eq!(usage.total_pages, added);
    assert_eq!(pmm.max_pfn(), 0xc00);
    assert!(added > 0 && added < 0xa00);
}

/// Follows the entries for `vpn` down from the table in frame `root`, as the hardware would.
fn translate(mem: &PageTableMemory, root: usize, vpn: usize) -> Option<usize> {
    let mut table = root;
    let mut level = 3usize;
    loop {
        let index = (vpn >> (9 * level)) & 511;
        let entry = mem.read(pfn(table), index);
        if entry & 1 == 0 {
            return None;
        }
        let frame = ((entry & 0x000f_ffff_ffff_f000) >> 12) as usize;
        if level == 0 || entry & 0x80 != 0 {
            return Some(frame + (vpn & ((1usize << (9 * level)) - 1)));
        }
        table = frame;
        level -= 1;
    }
}

#[test]
fn page_table_map_translates_each_page() {
    let mut mem = PageTableMemory::new();
    let mut alloc = BumpPageTableAlloc::new(pfn(0x10), pfn(0x20));
    let mut pt = PageTable::new(pfn(1));
    let mut pointer = MappingPointer::new(VirtPageNum::new(0x400), 4);
    pt.map(&mut mem, &mut alloc, &mut pointer, pfn(0x80), rw(), CacheMode::Cached).unwrap();
    for i in 0..4 {
        assert_eq!(translate(&mem, 1, 0x400 + i), Some(0x80 + i));
    }
    assert_eq!(translate(&mem, 1, 0x404), None);
    let mut large = MappingPointer::new(VirtPageNum::new(0x200), 0x200);
    pt.map(&mut mem, &mut alloc, &mut large, pfn(0x1000), rw(), CacheMode::Cached).unwrap();
    assert_eq!(translate(&mem, 1, 0x200), Some(0x1000));
    assert_eq!(translate(&mem, 1, 0x3ff), Some(0x11ff));
    for i in 0..4 {
        assert_eq!(translate(&mem, 1, 0x400 + i), Some(0x80 + i));
    }
}

#[test]
fn mapper_page_translates_to_its_frame() {
    let mut mem = PageTableMemory::new();
    let mut alloc = BumpPageTableAlloc::new(pfn(0x10), pfn(0x20));
    let translator = EarlyMapPfnTranslator::new(pfn(0)..pfn(0x1000), kimage());
    let mut mapper = Mapper::new(pfn(1), translator);
    assert_eq!(mapper.map(&mut mem, &mut alloc, VirtPageNum::new(0x777), pfn(0x55), rw()), Ok(()));
    assert_eq!(mapper.map(&mut mem, &mut alloc, VirtPageNum::new(0x778), pfn(0x99), rw()), Ok(()));
    assert_eq!(translate(&mem, 1, 0x777), Some(0x55));
    assert_eq!(translate(&mem, 1, 0x778), Some(0x99));
    assert_eq!(translate(&mem, 1, 0x779), None);
}

#[test]
fn early_mapper_maps_identity() {
    let mut mem = PageTableMemory::new();
    let mut mapper = EarlyMapper::new(pfn(1), BumpPageTableAlloc::new(pfn(0x10), pfn(0x20)));
    mapper.map(&mut mem, pfn(0x300), 3).unwrap();
    for i in 0..3 {
        assert_eq!(translate(&mem, 1, 0x300 + i), Some(0x300 + i));
    }
    assert_eq!(translate(&mem, 1, 0x303), None);
}

#[test]
fn physmap_maps_every_usable_frame() {
    let m = map();
    let mut mem = PageTableMemory::new();
    let mut alloc = BumpPageTableAlloc::new(pfn(0x10), pfn(0x40));
    corrosios::mm::physmap::init(&m, &mut mem, &mut alloc, pfn(1)).unwrap();
    let base = 0xf_fff8_0000_0000usize;
    for frame in [0x100usize, 0x1ff, 0x200, 0x7ff, 0x800, 0x8ff, 0x900, 0xbff] {
        assert_eq!(translate(&mem, 1, base + frame), Some(frame));
    }
    assert_eq!(translate(&mem, 1, base + 0xff), None);
    assert_eq!(translate(&mem, 1, base + 0xc00), None);
}

#[test]
fn page_table_unmap_clears_a_mapped_range() {
    let mut mem = PageTableMemory::new();
    let mut alloc = BumpPageTableAlloc::new(pfn(0x10), pfn(0x20));
    let mut pt = PageTable::new(pfn(1));
    let mut pointer = MappingPointer::new(VirtPageNum::new(0x3fe), 0x204);
    pt.map(&mut mem, &mut alloc, &mut pointer, pfn(0x7fe), rw(), CacheMode::Cached).unwrap();
    assert_eq!(translate(&mem, 1, 0x3fe), Some(0x7fe));
    assert_eq!(translate(&mem, 1, 0x400), Some(0x800));
    assert_eq!(translate(&mem, 1, 0x601), Some(0xa01));
    let mut unmap = MappingPointer::new(VirtPageNum::new(0x3fe), 0x204);
    pt.unmap(&mut mem, &mut NoopGather, &mut unmap).unwrap();
    assert_eq!(unmap.offset(), 0x204);
    for vpn in [0x3fe, 0x3ff, 0x400, 0x5ff, 0x600, 0x601] {
        assert_eq!(translate(&mem, 1, vpn), None);
    }
}

/// The entry that maps `vpn`, found as [`translate`] finds the frame.
fn entry_for(mem: &PageTableMemory, root: usize, vpn: usize) -> Option<u64> {
    let mut table = root;
    let mut level = 3usize;
    loop {
        let index = (vpn >> (9 * level)) & 511;
        let entry = mem.read(pfn(table), index);
        if entry & 1 == 0 {
            return None;
        }
        if level == 0 || entry & 0x80 != 0 {
            return Some(entry);
        }
        table = ((entry & 0x000f_ffff_ffff_f000) >> 12) as usize;
        level -= 1;
    }
}

#[test]
fn page_table_protect_sets_permissions() {
    let mut mem = PageTableMemory::new();
    let mut alloc = BumpPageTableAlloc::new(pfn(0x10), pfn(0x20));
    let mut pt = PageTable::new(pfn(1));
    let mut pointer = MappingPointer::new(VirtPageNum::new(0x400), 4);
    pt.map(&mut mem, &mut alloc, &mut pointer, pfn(0x80), rw(), CacheMode::Cached).unwrap();
    assert_eq!(entry_for(&mem, 1, 0x401).unwrap() & 2, 2);
    let mut protect = MappingPointer::new(VirtPageNum::new(0x400), 4);
    pt.protect(&mut mem, &mut NoopGather, &mut protect, PageTablePerms::from_bits(PERMS_READ)).unwrap();
    for vpn in 0x400..0x404 {
        let e = entry_for(&mem, 1, vpn).unwrap();
        assert_eq!(e & 0x8000_0000_0000_0106, 0x8000_0000_0000_0000);
        assert_eq!(translate(&mem, 1, vpn), Some(0x80 + vpn - 0x400));
    }
}

#[test]
fn page_table_cull_unlinks_last_level_tables() {
    let mut mem = PageTableMemory::new();
    let mut alloc = BumpPageTableAlloc::new(pfn(0x10), pfn(0x20));
    let mut pt = PageTable::new(pfn(1));
    let mut pointer = MappingPointer::new(VirtPageNum::new(0x400), 0x200);
    pt.map(&mut mem, &mut alloc, &mut pointer, pfn(0x81), rw(), CacheMode::Cached).unwrap();
    assert_eq!(translate(&mem, 1, 0x480), Some(0x101));
    let culled = pt.cull_tables(&mut mem, VirtPageNum::new(0x400), 0x200);
    assert_eq!(culled, vec![pfn(0x12), pfn(0x11), pfn(0x10)]);
    assert_eq!(translate(&mem, 1, 0x480), None);
}

#[test]
fn mapped_entries_carry_the_permissions_and_cache_mode() {
    let mut mem = PageTableMemory::new();
    let mut alloc = BumpPageTableAlloc::new(pfn(0x10), pfn(0x20));
    let mut pt = PageTable::new(pfn(1));
    let mut pointer = MappingPointer::new(VirtPageNum::new(0x400), 1);
    pt.map(&mut mem, &mut alloc, &mut pointer, pfn(0x80), rw(), CacheMode::Uncached).unwrap();
    let mut table = 1usize;
    for level in (1..4).rev() {
        let entry = mem.read(pfn(table), (0x400usize >> (9 * level)) & 511);
        table = ((entry & 0x000f_ffff_ffff_f000) >> 12) as usize;
    }
    let leaf = mem.read(pfn(table), 0x400 & 511);
    assert_eq!(leaf & 0x2, 0x2);
    assert_eq!(leaf & 0x18, 0x10);
    assert_eq!(leaf & 0x8000_0000_0000_0000, 0x8000_0000_0000_0000);
    assert_eq!((leaf & 0x000f_ffff_ffff_f000) >> 12, 0x80);
}
