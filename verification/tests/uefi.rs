use corrosios::image::{mbr_block_count, DISK_SIZE, EFI_PARTITION_SIZE, LB_SIZE};
use corrosios::uefi::table::{BootState, SystemTableHandle};
use corrosios::minielf::{Header, ProgramHeader, CLASS_64, DATA_LE, MAGIC};
use corrosios::uefi::cstr::{u16cstr, FromCharsWithNulError, FromU16sWithNulError, U16CStr};
use corrosios::uefi::proto::fs::{info_size_from, read_exact_outcome, FileInfo};
use corrosios::uefi::proto::gop::{
    current_mode_from_abi, mode_info_from_abi, CurrentModeAbi, ModeInfoAbi, PixelBitmask, PixelFormat,
};
use corrosios::uefi::proto::io::output_str_buffers;
use corrosios::uefi::proto::path::{parse_device_path, SUB_TYPE_END_ENTIRE, TYPE_END, TYPE_MEDIA};
use corrosios::uefi::status::{
    Status, BUFFER_TOO_SMALL, END_OF_FILE, INVALID_PARAMETER, OUT_OF_RESOURCES, SUCCESS, WARN_UNKNOWN_GLYPH,
};
use corrosios::uefi::table::{
    exit_boot_services_outcome, exit_boot_services_step, memory_map_from, memory_map_size_from,
    parse_memory_map, AllocMode, AllocModeAbi, ExitBootServicesError, ExitStep, SystemTable,
};
use corrosios::uefi::types::{MemoryMapKey, MemoryType, CONVENTIONAL};

#[test]
fn status_classes() {
    assert!(Status(SUCCESS).is_success());
    assert!(!Status(SUCCESS).is_err());
    assert!(Status(WARN_UNKNOWN_GLYPH).is_warn());
    assert!(Status(INVALID_PARAMETER).is_err());
    assert!(!Status(INVALID_PARAMETER).is_warn());
    assert_eq!(Status(BUFFER_TOO_SMALL).to_result(), Err(Status(BUFFER_TOO_SMALL)));
    assert_eq!(Status(WARN_UNKNOWN_GLYPH).to_result(), Ok(()));
    assert_eq!(INVALID_PARAMETER, (1usize << (usize::BITS - 1)) | 2);
    assert_eq!(Status::from_raw(5).to_raw(), 5);
}

#[test]
fn cstr_validation() {
    let s = U16CStr::from_u16s_with_nul(&[0x41, 0x42, 0]).unwrap();
    assert_eq!(s.to_u16s(), &[0x41, 0x42]);
    assert_eq!(s.to_u16s_with_nul(), &[0x41, 0x42, 0]);
    assert!(U16CStr::from_u16s_with_nul(&[0x41, 0x42]).is_err());
    assert!(U16CStr::from_u16s_with_nul(&[0x41, 0, 0x42, 0]).is_err());
    assert!(U16CStr::from_u16s_with_nul(&[]).is_err());
    assert_eq!(Status::from(FromU16sWithNulError), Status(INVALID_PARAMETER));
    assert_eq!(Status::from(FromCharsWithNulError), Status(INVALID_PARAMETER));
    let c = U16CStr::from_chars_with_nul(&[0]).unwrap();
    assert_eq!(c.as_slice(), &[0]);
    assert!(U16CStr::from_chars_with_nul(&[1, 2]).is_err());
}

#[test]
fn u16cstr_encodes_ucs2() {
    let s = u16cstr("Hé€");
    assert_eq!(s.to_u16s_with_nul(), &[0x48, 0xe9, 0x20ac, 0]);
}

#[test]
fn alloc_modes() {
    assert_eq!(AllocMode::Any.to_abi(), (AllocModeAbi::AnyPages, 0));
    assert_eq!(AllocMode::Below(0x1000).to_abi(), (AllocModeAbi::MaxAddress, 0x1000));
    assert_eq!(AllocMode::At(0x2000).to_abi(), (AllocModeAbi::Address, 0x2000));
}

#[test]
fn memory_map_size_accepts_buffer_too_small() {
    assert_eq!(memory_map_size_from(Status(BUFFER_TOO_SMALL), 480), Ok(480));
    assert_eq!(memory_map_size_from(Status(SUCCESS), 0), Ok(0));
    assert_eq!(memory_map_size_from(Status(INVALID_PARAMETER), 0), Err(Status(INVALID_PARAMETER)));
    assert_eq!(info_size_from(Status(BUFFER_TOO_SMALL), 100), Ok(100));
    assert_eq!(info_size_from(Status(OUT_OF_RESOURCES), 100), Err(Status(OUT_OF_RESOURCES)));
}

fn descriptor_bytes(ty: u32, phys: u64, pages: u64, stride: usize) -> Vec<u8> {
    let mut b = Vec::new();
    b.extend_from_slice(&ty.to_le_bytes());
    b.extend_from_slice(&[0; 4]);
    b.extend_from_slice(&phys.to_le_bytes());
    b.extend_from_slice(&0u64.to_le_bytes());
    b.extend_from_slice(&pages.to_le_bytes());
    b.extend_from_slice(&7u64.to_le_bytes());
    b.resize(stride, 0xee);
    b
}

#[test]
fn memory_map_is_decoded_by_stride() {
    let mut buf = descriptor_bytes(CONVENTIONAL, 0x10_0000, 16, 48);
    buf.extend(descriptor_bytes(2, 0x20_0000, 1, 48));
    buf.extend_from_slice(&[0xaa; 8]);
    let descs = parse_memory_map(&buf, 96, 48);
    assert_eq!(descs.len(), 2);
    assert_eq!(descs[0].mem_type, MemoryType(CONVENTIONAL));
    assert_eq!(descs[0].phys_start, 0x10_0000);
    assert_eq!(descs[0].page_count, 16);
    assert_eq!(descs[0].attr, 7);
    assert_eq!(descs[1].mem_type.to_raw(), 2);
    assert_eq!(descs[1].phys_start, 0x20_0000);
    let (key, d) = memory_map_from(Status(SUCCESS), MemoryMapKey(9), &buf, 48, 48).unwrap();
    assert_eq!(key, MemoryMapKey(9));
    assert_eq!(d.len(), 1);
    assert!(memory_map_from(Status(BUFFER_TOO_SMALL), MemoryMapKey(9), &buf, 0, 48).is_err());
}

#[test]
fn exit_boot_services_decisions() {
    assert_eq!(exit_boot_services_outcome(Status(SUCCESS)), Ok(()));
    assert_eq!(
        exit_boot_services_outcome(Status(INVALID_PARAMETER)),
        Err(ExitBootServicesError::StaleMemoryMap)
    );
    assert_eq!(
        exit_boot_services_outcome(Status(OUT_OF_RESOURCES)),
        Err(ExitBootServicesError::Error(Status(OUT_OF_RESOURCES)))
    );
    assert_eq!(exit_boot_services_step(Status(INVALID_PARAMETER)), ExitStep::Retry);
    assert_eq!(exit_boot_services_step(Status(SUCCESS)), ExitStep::Done);
    assert_eq!(exit_boot_services_step(Status(END_OF_FILE)), ExitStep::Fail(Status(END_OF_FILE)));
    let t = SystemTable::new(0x2_0046);
    assert_eq!(t.firmware_revision(), 0x2_0046);
    assert_eq!(t.into_runtime().firmware_revision(), 0x2_0046);
}

#[test]
fn graphics_modes() {
    let mask = PixelBitmask { red_mask: 0xff, green_mask: 0xff00, blue_mask: 0xff_0000, reserved_mask: 0 };
    let info = ModeInfoAbi { version: 0, hres: 800, vres: 600, pixel_format: 1, pixel_bitmask: mask, pixels_per_scanline: 832 };
    let m = mode_info_from_abi(&info);
    assert_eq!((m.hres, m.vres, m.pixels_per_scanline), (800, 600, 832));
    assert_eq!(m.pixel_format, PixelFormat::Bgr);
    let mode = CurrentModeAbi { max_mode: 3, mode: 1, info_size: 36, framebuffer_base: 0x8000_0000, framebuffer_size: 0x20_0000 };
    let cur = current_mode_from_abi(&mode, &info);
    assert_eq!(cur.framebuffer.unwrap().base, 0x8000_0000);
    let blt_only = ModeInfoAbi { pixel_format: 3, ..info };
    assert!(current_mode_from_abi(&mode, &blt_only).framebuffer.is_none());
    let masked = ModeInfoAbi { pixel_format: 2, ..info };
    assert_eq!(mode_info_from_abi(&masked).pixel_format, PixelFormat::Bitmask(mask));
    assert!(!PixelFormat::Unknown.has_framebuffer());
    assert!(PixelFormat::Rgb.has_framebuffer());
}

#[test]
fn device_paths_are_split_into_nodes() {
    let bytes = [TYPE_MEDIA, 4, 6, 0, 0xaa, 0xbb, TYPE_END, SUB_TYPE_END_ENTIRE, 4, 0, 0x99];
    let nodes = parse_device_path(&bytes).unwrap();
    assert_eq!(nodes.len(), 2);
    assert_eq!((nodes[0].node_type(), nodes[0].sub_type()), (TYPE_MEDIA, 4));
    assert_eq!(nodes[0].data(), &[0xaa, 0xbb]);
    assert_eq!(nodes[1].node_type(), TYPE_END);
    assert!(nodes[1].data().is_empty());
    assert!(parse_device_path(&[TYPE_MEDIA, 4, 2, 0]).is_none());
    assert!(parse_device_path(&[TYPE_MEDIA, 4, 4, 0]).is_none());
}

#[test]
fn read_exact_requires_full_read() {
    assert_eq!(read_exact_outcome(Ok(16), 16), Ok(()));
    assert_eq!(read_exact_outcome(Ok(10), 16), Err(Status(END_OF_FILE)));
    assert_eq!(read_exact_outcome(Err(Status(INVALID_PARAMETER)), 16), Err(Status(INVALID_PARAMETER)));
}

#[test]
fn file_info_is_decoded() {
    let mut b = vec![0u8; 80];
    b[8..16].copy_from_slice(&1234u64.to_le_bytes());
    b[16..24].copy_from_slice(&4096u64.to_le_bytes());
    b[24..26].copy_from_slice(&2024u16.to_le_bytes());
    b[26] = 5;
    b[72..80].copy_from_slice(&0x10u64.to_le_bytes());
    for u in [0x61u16, 0x62, 0] {
        b.extend_from_slice(&u.to_le_bytes());
    }
    let info = FileInfo::from_bytes(&b);
    assert_eq!(info.size(), 1234);
    assert_eq!(info.physical_size(), 4096);
    assert_eq!(info.attr(), 0x10);
    assert_eq!(info.create_time().year, 2024);
    assert_eq!(info.create_time().month, 5);
    assert_eq!(info.last_access_time().year, 0);
    assert_eq!(info.modification_time().month, 0);
    assert_eq!(info.name().to_u16s(), &[0x61, 0x62]);
}

#[test]
fn text_output_is_split_into_buffers() {
    let (bufs, ok) = output_str_buffers("a\nb");
    assert!(ok);
    assert_eq!(bufs, vec![vec![0x61, 13, 10, 0x62, 0]]);
    let long: String = "x".repeat(130);
    let (bufs, ok) = output_str_buffers(&long);
    assert!(ok);
    assert_eq!(bufs.len(), 3);
    assert_eq!(bufs[0].len(), 65);
    assert_eq!(bufs[2], vec![0x78, 0x78, 0]);
    let (bufs, ok) = output_str_buffers(&"y".repeat(64));
    assert!(ok);
    assert_eq!(bufs.len(), 1);
    assert_eq!(bufs[0].len(), 65);
    let (bufs, ok) = output_str_buffers("");
    assert!(ok);
    assert_eq!(bufs, vec![vec![0]]);
}

#[test]
fn text_output_stops_at_non_ucs2() {
    let mut s: String = "z".repeat(70);
    s.push('😀');
    s.push('z');
    let (bufs, ok) = output_str_buffers(&s);
    assert!(!ok);
    assert_eq!(bufs.len(), 1);
    assert_eq!(bufs[0].len(), 65);
}

#[test]
fn elf_header_validation() {
    let h = Header {
        magic: MAGIC,
        class: CLASS_64,
        data: DATA_LE,
        ident_version: 1,
        abi: 0,
        abi_version: 0,
        pad: [0; 7],
        ty: 2,
        machine: 0x3e,
        version: 1,
        entry: 0,
        ph_off: 64,
        sh_off: 0,
        flags: 0,
        header_size: 64,
        ph_entry_size: 56,
        ph_entry_num: 1,
        sh_entry_size: 0,
        sh_entry_num: 0,
        sh_str_index: 0,
    };
    assert!(h.is_valid());
    assert!(!Header { class: 1, ..h }.is_valid());
    assert!(!Header { magic: [0x7f, 0x45, 0x4c, 0x47], ..h }.is_valid());
    let ph = ProgramHeader { ty: 1, flags: 5, off: 0, virt_addr: 0, phys_addr: 0, file_size: 0, mem_size: 0, align: 4096 };
    assert_eq!(ph.ty, 1);
}

#[test]
fn disk_image_layout() {
    assert_eq!(EFI_PARTITION_SIZE, 10 * 1024 * 1024);
    assert_eq!(DISK_SIZE, 10 * 1024 * 1024 + 64 * 1024);
    assert_eq!(mbr_block_count(DISK_SIZE), (DISK_SIZE / LB_SIZE - 1) as u32);
    assert_eq!(mbr_block_count(512), 0);
    assert_eq!(mbr_block_count(u64::MAX), u32::MAX);
}

#[test]
fn system_table_handle_is_the_system_table() {
    let t: SystemTableHandle<BootState> = SystemTable::new(7);
    assert_eq!(t.firmware_revision(), 7);
}

#[test]
fn device_path_ends_with_one_end_node() {
    let bytes = [1, 1, 4, 0, TYPE_END, 1, 4, 0, TYPE_END, SUB_TYPE_END_ENTIRE, 4, 0];
    let nodes = parse_device_path(&bytes).unwrap();
    assert_eq!(nodes.len(), 3);
    assert_eq!(nodes[1].sub_type(), 1);
    assert_eq!(nodes[2].sub_type(), SUB_TYPE_END_ENTIRE);
}
