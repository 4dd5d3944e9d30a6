//! Data types shared with the firmware.
use vstd::prelude::*;

verus! {

/// An opaque handle to a firmware object, by its address.
#[derive(Clone, Copy, Debug, PartialEq, Eq, Structural)]
pub struct Handle(pub usize);

/// A globally unique identifier, as the firmware lays it out.
#[derive(Clone, Copy, Debug, PartialEq, Eq)]
pub struct Guid(pub u32, pub u16, pub u16, pub [u8; 8]);

/// A point in time, as the firmware reports it.
#[derive(Clone, Copy, Debug, PartialEq, Eq, Structural)]
pub struct Timestamp {
    pub year: u16,
    pub month: u8,
    pub day: u8,
    pub hour: u8,
    pub minute: u8,
    pub second: u8,
    pub pad1: u8,
    pub nanosecond: u32,
    pub timezone: i16,
    pub daylight: u8,
    pub pad2: u8,
}

/// The key identifying one version of the memory map.
#[derive(Clone, Copy, Debug, PartialEq, Eq, Structural)]
pub struct MemoryMapKey(pub usize);

/// The type of a region of the memory map.
#[derive(Clone, Copy, Debug, PartialEq, Eq, Structural)]
pub struct MemoryType(pub u32);

/// Reserved memory.
pub const RESERVED: u32 = 0;
/// The code of a loaded image.
pub const LOADER_CODE: u32 = 1;
/// The data of a loaded image.
pub const LOADER_DATA: u32 = 2;
/// The code of boot services.
pub const BOOT_SERVICES_CODE: u32 = 3;
/// The data of boot services.
pub const BOOT_SERVICES_DATA: u32 = 4;
/// The code of runtime services.
pub const RUNTIME_SERVICES_CODE: u32 = 5;
/// The data of runtime services.
pub const RUNTIME_SERVICES_DATA: u32 = 6;
/// Free memory.
pub const CONVENTIONAL: u32 = 7;
/// Memory with errors.
pub const UNUSABLE: u32 = 8;
/// Memory holding ACPI tables, free once they are read.
pub const ACPI_RECLAIM: u32 = 9;

impl MemoryType {
    /// The raw type.
    pub fn to_raw(self) -> (r: u32)
        ensures
            r == self.0,
    {
        self.0
    }

    /// The type with raw value `val`.
    pub fn from_raw(val: u32) -> (r: Self)
        ensures
            r.0 == val,
    {
        MemoryType(val)
    }
}

/// A region of the memory map.
#[derive(Clone, Copy, Debug, PartialEq, Eq, Structural)]
pub struct MemoryDescriptor {
    pub mem_type: MemoryType,
    pub phys_start: u64,
    pub virt_start: u64,
    pub page_count: u64,
    pub attr: u64,
}

/// An entry of the firmware's configuration table.
#[derive(Clone, Copy, Debug, PartialEq, Eq)]
pub struct ConfigTableEntry {
    pub guid: Guid,
    pub ptr: usize,
}

/// The number of bytes that a memory descriptor occupies.
pub const MEMORY_DESCRIPTOR_SIZE: usize = 40;

/// The little-endian number held in the 4 bytes of `b` from `off`.
pub open spec fn le_u32(b: Seq<u8>, off: int) -> int {
    b[off] + 0x100 * (b[off + 1] + 0x100 * (b[off + 2] + 0x100 * b[off + 3] as int))
}

/// The little-endian number held in the 8 bytes of `b` from `off`.
pub open spec fn le_u64(b: Seq<u8>, off: int) -> int {
    le_u32(b, off) + 0x1_0000_0000 * le_u32(b, off + 4)
}

/// Reads the little-endian `u32` at `off` in `b`.
pub fn read_u32_le(b: &[u8], off: usize) -> (r: u32)
    requires
        off + 4 <= b@.len(),
    ensures
        r == le_u32(b@, off as int),
{
    let b0 = b[off] as u32;
    let b1 = b[off + 1] as u32;
    let b2 = b[off + 2] as u32;
    let b3 = b[off + 3] as u32;
    b0 + 0x100 * (b1 + 0x100 * (b2 + 0x100 * b3))
}

/// Reads the little-endian `u64` at `off` in `b`.
pub fn read_u64_le(b: &[u8], off: usize) -> (r: u64)
    requires
        off + 8 <= b@.len(),
    ensures
        r == le_u64(b@, off as int),
{
    let _len = b.len();
    let lo = read_u32_le(b, off) as u64;
    let hi = read_u32_le(b, off + 4) as u64;
    lo + 0x1_0000_0000 * hi
}

/// The little-endian `u16` at `off` in `b`.
pub open spec fn le_u16(b: Seq<u8>, off: int) -> int {
    b[off] + 0x100 * b[off + 1] as int
}

/// Reads the little-endian `u16` at `off` in `b`.
pub fn read_u16_le(b: &[u8], off: usize) -> (r: u16)
    requires
        off + 2 <= b@.len(),
    ensures
        r == le_u16(b@, off as int),
{
    let b0 = b[off] as u16;
    let b1 = b[off + 1] as u16;
    b0 + 0x100 * b1
}

/// The memory descriptor laid out in the 40 bytes of `b` from `off`: the type, 4 bytes of
/// padding, then the physical and virtual start, the page count and the attributes.
pub open spec fn spec_descriptor_at(b: Seq<u8>, off: int) -> MemoryDescriptor {
    MemoryDescriptor {
        mem_type: MemoryType(le_u32(b, off) as u32),
        phys_start: le_u64(b, off + 8) as u64,
        virt_start: le_u64(b, off + 16) as u64,
        page_count: le_u64(b, off + 24) as u64,
        attr: le_u64(b, off + 32) as u64,
    }
}

/// Decodes the memory descriptor laid out at `off` in `b`.
pub fn descriptor_at(b: &[u8], off: usize) -> (r: MemoryDescriptor)
    requires
        off + MEMORY_DESCRIPTOR_SIZE <= b@.len(),
    ensures
        r == spec_descriptor_at(b@, off as int),
{
    let _len = b.len();
    MemoryDescriptor {
        mem_type: MemoryType(read_u32_le(b, off)),
        phys_start: read_u64_le(b, off + 8),
        virt_start: read_u64_le(b, off + 16),
        page_count: read_u64_le(b, off + 24),
        attr: read_u64_le(b, off + 32),
    }
}

} // verus!
