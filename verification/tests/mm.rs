use corrosios::err::Error;
use corrosios::mm::bootheap::BootHeap;
use corrosios::mm::heap::{
    allocate as heap_allocate, deallocate as heap_deallocate, get_effective_size, raw_page_order,
    resize, Allocator, Resized, SizeClass, SizeClassMeta,
};
use corrosios::mm::physmap::{merge_adjacent, pfn_to_physmap, physmap_spans, physmap_to_pfn};
use corrosios::mm::pmm::{alloc_frame, allocate as pmm_allocate, dump_usage, PhysManager};
use corrosios::mm::types::{Layout, PhysAddr, PhysFrameNum, VirtPageNum};
use corrosios::mm::utils::{
    memory_kind_name, range_bytes,
    display_byte_size, is_early_usable, is_usable, iter_usable_ranges, to_page_count, ByteUnit,
    MemoryKind, MemoryRange,
};

fn pfn(n: usize) -> PhysFrameNum {
    PhysFrameNum::new(n)
}

fn pmm_with(max: usize, start: usize, end: usize) -> PhysManager {
    let mut pmm = PhysManager::new(pfn(max));
    pmm.add_free_range(pfn(start), pfn(end));
    pmm
}

#[test]
fn pmm_new_is_empty() {
    let pmm = PhysManager::new(pfn(1024));
    let usage = dump_usage(&pmm);
    assert_eq!(usage.total_pages, 0);
    assert_eq!(usage.free_pages, 0);
    assert_eq!(pmm.max_pfn(), 1024);
}

#[test]
fn pmm_add_free_range_uses_largest_blocks() {
    let pmm = pmm_with(1024, 0, 1024);
    let usage = dump_usage(&pmm);
    assert_eq!(usage.total_pages, 1024);
    assert_eq!(usage.free_pages, 1024);
    assert_eq!(usage.used_pages, 0);
    assert_eq!(usage.free_blocks[10], 1);
}

#[test]
fn pmm_allocate_splits_and_aligns() {
    let mut pmm = pmm_with(1024, 0, 1024);
    let a = pmm_allocate(&mut pmm, 0).unwrap();
    let b = pmm_allocate(&mut pmm, 0).unwrap();
    assert_ne!(a.as_usize(), b.as_usize());
    let c = pmm_allocate(&mut pmm, 3).unwrap();
    assert_eq!(c.as_usize() % 8, 0);
    let usage = dump_usage(&pmm);
    assert_eq!(usage.free_pages, 1024 - 1 - 1 - 8);
    assert_eq!(usage.used_pages, 10);
}

#[test]
fn pmm_allocate_fails_when_empty() {
    let mut pmm = PhysManager::new(pfn(1024));
    assert!(pmm_allocate(&mut pmm, 0).is_none());
    assert!(pmm_allocate(&mut pmm, 16).is_none());
}

#[test]
fn pmm_deallocate_merges_buddies() {
    let mut pmm = pmm_with(1024, 0, 2);
    let a = pmm_allocate(&mut pmm, 0).unwrap();
    let b = pmm_allocate(&mut pmm, 0).unwrap();
    assert_eq!(dump_usage(&pmm).free_pages, 0);
    pmm.deallocate(a, 0);
    assert_eq!(dump_usage(&pmm).free_blocks[0], 1);
    pmm.deallocate(b, 0);
    let usage = dump_usage(&pmm);
    assert_eq!(usage.free_blocks[1], 1);
    assert_eq!(usage.free_blocks[0], 0);
    assert_eq!(usage.free_pages, 2);
}

#[test]
fn alloc_frame_reports_out_of_memory() {
    let mut pmm = PhysManager::new(pfn(64));
    assert_eq!(alloc_frame(&mut pmm), Err(Error::OutOfMemory));
    let mut pmm = pmm_with(64, 0, 4);
    let f = alloc_frame(&mut pmm).unwrap();
    assert!(f.as_usize() < 4);
    assert_eq!(dump_usage(&pmm).free_pages, 3);
}

#[test]
fn bootheap_bumps_aligned() {
    let mut heap = BootHeap::new(PhysAddr::new(0x1001)..PhysAddr::new(0x3000));
    let l = Layout::from_size_align(16, 16).unwrap();
    assert!(heap.fits(l));
    let a = heap.alloc_phys(l);
    assert_eq!(a.as_usize(), 0x1010);
    let b = heap.alloc_phys(Layout::from_size_align(8, 8).unwrap());
    assert_eq!(b.as_usize(), 0x1020);
    let used = heap.used_range();
    assert_eq!(used.start.as_usize(), 0x1001);
    assert_eq!(used.end.as_usize(), 0x1028);
    assert!(!heap.fits(Layout::from_size_align(0x3000, 8).unwrap()));
}

#[test]
fn memory_kinds() {
    assert!(is_usable(MemoryKind::Usable));
    assert!(is_usable(MemoryKind::FirmwareBoot));
    assert!(!is_usable(MemoryKind::Reserved));
    assert!(is_early_usable(MemoryKind::Usable));
    assert!(!is_early_usable(MemoryKind::FirmwareBoot));
    assert_eq!(to_page_count(0), 0);
    assert_eq!(to_page_count(1), 1);
    assert_eq!(to_page_count(4097), 2);
}

#[test]
fn byte_sizes_pick_largest_unit() {
    let s = display_byte_size(512);
    assert_eq!((s.amount, s.unit), (512, ByteUnit::Bytes));
    let s = display_byte_size(4096);
    assert_eq!((s.amount, s.unit), (4, ByteUnit::Kib));
    assert_eq!(s.suffix(), "K");
    let s = display_byte_size(3 * 1024 * 1024 + 5);
    assert_eq!((s.amount, s.unit), (3, ByteUnit::Mib));
    let s = display_byte_size(2 * 1024 * 1024 * 1024);
    assert_eq!((s.amount, s.unit), (2, ByteUnit::Gib));
}

#[test]
fn usable_ranges_carve_out_reserved() {
    let usable = vec![pfn(0)..pfn(100), pfn(200)..pfn(300)];
    let reserved = vec![pfn(10)..pfn(20), pfn(250)..pfn(260)];
    let r = iter_usable_ranges(&usable, &reserved);
    let got: Vec<(usize, usize)> = r.iter().map(|x| (x.start.as_usize(), x.end.as_usize())).collect();
    assert_eq!(got, vec![(0, 10), (20, 100), (200, 250), (260, 300)]);
}

#[test]
fn reserved_range_in_a_gap_does_not_hold_back_later_ones() {
    let usable = vec![pfn(0)..pfn(10), pfn(20)..pfn(30)];
    let reserved = vec![pfn(12)..pfn(15), pfn(22)..pfn(25)];
    let r = iter_usable_ranges(&usable, &reserved);
    let got: Vec<(usize, usize)> = r.iter().map(|x| (x.start.as_usize(), x.end.as_usize())).collect();
    assert_eq!(got, vec![(0, 10), (20, 22), (25, 30)]);
}

#[test]
fn usable_ranges_without_reserved_are_unchanged() {
    let usable = vec![pfn(5)..pfn(7)];
    let r = iter_usable_ranges(&usable, &[]);
    assert_eq!(r.len(), 1);
    assert_eq!((r[0].start.as_usize(), r[0].end.as_usize()), (5, 7));
}

#[test]
fn physmap_translation_round_trips() {
    let vpn = pfn_to_physmap(pfn(42));
    assert_eq!(physmap_to_pfn(vpn).as_usize(), 42);
    assert_eq!(vpn.as_usize(), 0xf_fff8_0000_0000 + 42);
}

#[test]
fn merge_adjacent_joins_touching_spans() {
    assert_eq!(merge_adjacent((pfn(0), pfn(5)), (pfn(5), pfn(9))), Ok((pfn(0), pfn(9))));
    assert_eq!(
        merge_adjacent((pfn(0), pfn(5)), (pfn(6), pfn(9))),
        Err(((pfn(0), pfn(5)), (pfn(6), pfn(9))))
    );
}

#[test]
fn physmap_spans_coalesce_usable_entries() {
    let map = vec![
        MemoryRange { start_page: 0, page_count: 16, kind: MemoryKind::Usable },
        MemoryRange { start_page: 16, page_count: 16, kind: MemoryKind::FirmwareBoot },
        MemoryRange { start_page: 32, page_count: 8, kind: MemoryKind::Reserved },
        MemoryRange { start_page: 40, page_count: 8, kind: MemoryKind::Usable },
    ];
    let spans = physmap_spans(&map);
    let got: Vec<(usize, usize)> = spans.iter().map(|s| (s.0.as_usize(), s.1.as_usize())).collect();
    assert_eq!(got, vec![(0, 32), (40, 48)]);
}

#[test]
fn heap_sizes_and_orders() {
    assert_eq!(get_effective_size(Layout::from_size_align(10, 8).unwrap()), 16);
    assert_eq!(get_effective_size(Layout::from_size_align(16, 8).unwrap()), 16);
    assert_eq!(raw_page_order(1), 0);
    assert_eq!(raw_page_order(4096), 0);
    assert_eq!(raw_page_order(4097), 1);
    assert_eq!(raw_page_order(3 * 4096), 2);
}

#[test]
fn size_class_meta_layout() {
    let meta = SizeClassMeta::new(64, 0);
    assert!(meta.first_object_offset() >= 24);
    assert_eq!(meta.first_object_offset() % 64, 0);
    assert!(meta.bitmap_bytes() >= 1);
}

#[test]
fn size_class_allocates_distinct_objects_and_frees() {
    let mut pmm = pmm_with(1024, 0, 1024);
    let mut class = SizeClass::new(64, 0);
    assert_eq!(class.size(), 64);
    let a = class.allocate(&mut pmm).unwrap();
    let b = class.allocate(&mut pmm).unwrap();
    assert_ne!(a, b);
    assert_eq!(dump_usage(&pmm).free_pages, 1023);
    class.deallocate(&mut pmm, a);
    assert_eq!(dump_usage(&pmm).free_pages, 1023);
    class.deallocate(&mut pmm, b);
    assert_eq!(dump_usage(&pmm).free_pages, 1024);
    assert_eq!(dump_usage(&pmm).free_blocks[10], 1);
}

#[test]
fn kernel_allocator_picks_class() {
    let heap = Allocator::kernel();
    assert_eq!(heap.get_size_class(1), Some(0));
    assert_eq!(heap.usable_size(1), 2);
    assert_eq!(heap.usable_size(8), 8);
    assert_eq!(heap.usable_size(100), 128);
    assert!(heap.get_size_class(1 << 20).is_none());
    assert_eq!(heap.usable_size(1 << 20), 1 << 20);
}

#[test]
fn allocator_allocate_and_deallocate() {
    let mut pmm = pmm_with(4096, 0, 4096);
    let mut heap = Allocator::kernel();
    let layout = Layout::from_size_align(100, 8).unwrap();
    let (addr, len) = heap_allocate(&mut heap, &mut pmm, layout).unwrap();
    assert!(len >= 100);
    assert_eq!(addr % 8, 0);
    let big = Layout::from_size_align(3 * 4096, 8).unwrap();
    let (baddr, blen) = heap_allocate(&mut heap, &mut pmm, big).unwrap();
    assert_eq!(blen, 4 * 4096);
    assert_eq!(baddr % 4096, 0);
    heap_deallocate(&mut heap, &mut pmm, baddr, big);
    heap_deallocate(&mut heap, &mut pmm, addr, layout);
    assert_eq!(dump_usage(&pmm).free_pages, 4096);
}

#[test]
fn allocator_resize_in_place_or_moved() {
    let mut pmm = pmm_with(4096, 0, 4096);
    let mut heap = Allocator::kernel();
    let small = Layout::from_size_align(100, 8).unwrap();
    let (addr, _) = heap_allocate(&mut heap, &mut pmm, small).unwrap();
    let same = Layout::from_size_align(110, 8).unwrap();
    match resize(&mut heap, &mut pmm, addr, small, same).unwrap() {
        Resized::InPlace { len } => assert_eq!(len, 128),
        Resized::Moved { .. } => panic!("expected the block to stay"),
    }
    let larger = Layout::from_size_align(500, 8).unwrap();
    match resize(&mut heap, &mut pmm, addr, small, larger).unwrap() {
        Resized::Moved { addr: new_addr, len, copy_len } => {
            assert_ne!(new_addr, addr);
            assert!(len >= 500);
            assert_eq!(copy_len, 100);
        }
        Resized::InPlace { .. } => panic!("expected a move"),
    }
}

#[test]
fn vpn_helpers_for_heap() {
    assert_eq!(VirtPageNum::new(3).as_usize(), 3);
}

#[test]
fn memory_kind_names_and_ranges() {
    assert_eq!(memory_kind_name(MemoryKind::Usable), "usable");
    assert_eq!(memory_kind_name(MemoryKind::FirmwareRuntime), "firmware (runtime)");
    assert_eq!(memory_kind_name(MemoryKind::AcpiTables), "ACPI tables");
    assert_eq!(memory_kind_name(MemoryKind::Other), "other");
    let r = MemoryRange { start_page: 2, page_count: 3, kind: MemoryKind::Usable };
    assert_eq!(range_bytes(r), (0x2000, 0x5000));
}

#[test]
fn bootheap_allocations_do_not_overlap() {
    let mut heap = BootHeap::new(PhysAddr::new(0x1000)..PhysAddr::new(0x2000));
    let a = heap.alloc_phys(Layout::from_size_align(24, 8).unwrap());
    let b = heap.alloc_phys(Layout::from_size_align(16, 16).unwrap());
    assert!(a.as_usize() + 24 <= b.as_usize());
    assert_eq!(b.as_usize(), 0x1020);
}

#[test]
fn freeing_without_merge_restores_free_count() {
    let mut pmm = pmm_with(1024, 0, 4);
    let before = dump_usage(&pmm).free_pages;
    let a = pmm_allocate(&mut pmm, 0).unwrap();
    let b = pmm_allocate(&mut pmm, 0).unwrap();
    let mid = dump_usage(&pmm).free_pages;
    pmm.deallocate(a, 0);
    assert_eq!(dump_usage(&pmm).free_pages, mid + 1);
    pmm.deallocate(b, 0);
    assert_eq!(dump_usage(&pmm).free_pages, before);
}
