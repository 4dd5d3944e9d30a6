//! The layout of the bootable disk image: a GPT disk holding one EFI system partition.
use vstd::prelude::*;

verus! {

/// One kibibyte.
pub const KB: u64 = 1024;
/// One mebibyte.
pub const MB: u64 = KB * KB;
/// The size of a logical block of the disk.
pub const LB_SIZE: u64 = 512;
/// The size of the EFI system partition.
pub const EFI_PARTITION_SIZE: u64 = 10 * MB;
/// The size of the whole disk: the partition and room for the partition tables.
pub const DISK_SIZE: u64 = EFI_PARTITION_SIZE + 64 * KB;

/// The number of blocks that the protective MBR of a disk of `disk_size` bytes covers: every
/// block but the first, capped to what its 32-bit field holds.
pub fn mbr_block_count(disk_size: u64) -> (r: u32)
    requires
        disk_size >= LB_SIZE,
    ensures
        disk_size / LB_SIZE - 1 <= u32::MAX ==> r == disk_size / LB_SIZE - 1,
        disk_size / LB_SIZE - 1 > u32::MAX ==> r == u32::MAX,
{
    let blocks = disk_size / LB_SIZE - 1;
    if blocks <= 0xffff_ffff {
        blocks as u32
    } else {
        0xffff_ffff
    }
}

} // verus!
