use corrosios::arch::{
    get_pte_frame, make_intermediate_pte, make_terminal_pte, pte_is_present, pte_is_terminal,
    update_pte_perms,
};
use corrosios::bitmap::{bytes_required, Bitmap};
use corrosios::mm::types::{
    CacheMode, Layout, PageTablePerms, PhysAddr, PhysFrameNum, VirtAddr, VirtPageNum, PERMS_READ,
    PERMS_WRITE,
};
use corrosios::num_utils::{align_down, align_up, div_ceil, log2, log2_ceil};

#[test]
fn align_down_rounds_to_multiple() {
    assert_eq!(align_down(4097, 4096), 4096);
    assert_eq!(align_down(4096, 4096), 4096);
    assert_eq!(align_down(17, 8), 16);
    assert_eq!(align_down(7, 8), 0);
}

#[test]
fn align_up_rounds_to_multiple() {
    assert_eq!(align_up(4097, 4096), 8192);
    assert_eq!(align_up(4096, 4096), 4096);
    assert_eq!(align_up(0, 8), 0);
    assert_eq!(align_up(1, 8), 8);
}

#[test]
fn div_ceil_rounds_up() {
    assert_eq!(div_ceil(10, 3), 4);
    assert_eq!(div_ceil(9, 3), 3);
    assert_eq!(div_ceil(0, 5), 0);
}

#[test]
fn log2_of_powers_and_others() {
    assert_eq!(log2(1), 0);
    assert_eq!(log2(2), 1);
    assert_eq!(log2(4096), 12);
    assert_eq!(log2(4097), 12);
    assert_eq!(log2_ceil(0), 0);
    assert_eq!(log2_ceil(1), 0);
    assert_eq!(log2_ceil(4096), 12);
    assert_eq!(log2_ceil(4097), 13);
}

#[test]
fn bitmap_bytes_required() {
    assert_eq!(bytes_required(0), 0);
    assert_eq!(bytes_required(1), 1);
    assert_eq!(bytes_required(8), 1);
    assert_eq!(bytes_required(9), 2);
}

#[test]
fn bitmap_set_unset_toggle() {
    let mut b = Bitmap::zeroed(2);
    assert!(!b.get(3));
    b.set(3);
    assert!(b.get(3));
    assert!(!b.get(2));
    b.toggle(3);
    assert!(!b.get(3));
    b.toggle(3);
    assert!(b.get(3));
    b.unset(3);
    assert!(!b.get(3));
}

#[test]
fn bitmap_from_bytes_is_lsb_first() {
    let b = Bitmap::new(vec![0b0000_0101, 0x80]);
    assert!(b.get(0));
    assert!(!b.get(1));
    assert!(b.get(2));
    assert!(b.get(15));
    assert!(!b.get(8));
}

#[test]
fn bitmap_first_zero() {
    let mut b = Bitmap::zeroed(1);
    assert_eq!(b.first_zero(8), Some(0));
    b.set(0);
    b.set(1);
    assert_eq!(b.first_zero(8), Some(2));
    assert_eq!(b.first_zero(2), None);
}

#[test]
fn addresses_and_pages() {
    let a = PhysAddr::new(0x1234);
    assert_eq!(a.containing_frame().as_usize(), 1);
    assert_eq!(a.containing_tail_frame().as_usize(), 2);
    assert_eq!(a.frame_offset(), 0x234);
    let v = VirtAddr::new(0x5000);
    assert_eq!(v.containing_page().as_usize(), 5);
    assert_eq!(v.containing_tail_page().as_usize(), 5);
    assert_eq!(v.page_offset(), 0);
    let p = VirtPageNum::new(5);
    assert_eq!(p.addr().as_usize(), 0x5000);
    assert_eq!(p.plus(3).as_usize(), 8);
    assert_eq!(p.minus(2).as_usize(), 3);
    assert_eq!(VirtPageNum::new(9).diff(p), 4);
    let f = PhysFrameNum::new(3);
    assert_eq!(f.addr().as_usize(), 0x3000);
}

#[test]
fn page_table_indices() {
    let vpn = VirtPageNum::new((3 << 27) | (5 << 18) | (7 << 9) | 11);
    assert_eq!(vpn.pt_index(3), 3);
    assert_eq!(vpn.pt_index(2), 5);
    assert_eq!(vpn.pt_index(1), 7);
    assert_eq!(vpn.pt_index(0), 11);
}

#[test]
fn perms_bits() {
    let p = PageTablePerms::from_bits(PERMS_READ);
    assert!(p.contains(PERMS_READ));
    assert!(!p.contains(PERMS_WRITE));
    let q = p.with(PERMS_WRITE);
    assert!(q.contains(PERMS_READ | PERMS_WRITE));
    let mut r = q;
    r.set(PERMS_READ, false);
    assert_eq!(r.bits(), PERMS_WRITE);
    assert_eq!(PageTablePerms::empty().bits(), 0);
}

#[test]
fn layout_checks_alignment() {
    assert!(Layout::from_size_align(16, 3).is_none());
    assert!(Layout::from_size_align(16, 0).is_none());
    let l = Layout::from_size_align(24, 8).unwrap();
    assert_eq!(l.size(), 24);
    assert_eq!(l.align(), 8);
}

#[test]
fn pte_encoding_round_trips() {
    let e = make_terminal_pte(0, 0x1234, PageTablePerms::from_bits(PERMS_READ), CacheMode::Cached);
    assert!(pte_is_present(e, 0));
    assert!(pte_is_terminal(e, 0));
    assert_eq!(get_pte_frame(e, 0), 0x1234);
    let large = make_terminal_pte(1, 0x200, PageTablePerms::from_bits(PERMS_READ), CacheMode::Cached);
    assert!(pte_is_terminal(large, 1));
    let i = make_intermediate_pte(2, 0x55);
    assert!(pte_is_present(i, 2));
    assert!(!pte_is_terminal(i, 2));
    assert_eq!(get_pte_frame(i, 2), 0x55);
    let u = update_pte_perms(e, 0, PageTablePerms::from_bits(PERMS_READ | PERMS_WRITE));
    assert_eq!(get_pte_frame(u, 0), 0x1234);
    assert!(pte_is_present(u, 0));
    assert_ne!(u, e);
}
