//! The headers of 64-bit little-endian ELF files.
use vstd::prelude::*;

verus! {

/// The bytes that start every ELF file.
pub const MAGIC: [u8; 4] = [0x7f, 0x45, 0x4c, 0x46];
/// The class of 64-bit files.
pub const CLASS_64: u8 = 2;
/// The data encoding of little-endian files.
pub const DATA_LE: u8 = 1;
/// The current version of the identification bytes.
pub const IDENT_VERSION_CURRENT: u8 = 1;
/// The System V ABI.
pub const ABI_SYSV: u8 = 0;
/// The current version of the ABI.
pub const ABI_VERSION_CURRENT: u8 = 0;
/// The current version of the file format.
pub const VERSION_CURRENT: u32 = 1;

/// The type of executable files.
pub const ELF_TYPE_EXEC: u16 = 2;
/// The type of shared object files.
pub const ELF_TYPE_DYN: u16 = 3;

/// The type of unused program header entries.
pub const SEGMENT_TYPE_NULL: u32 = 0;
/// The type of loadable segments.
pub const SEGMENT_TYPE_LOAD: u32 = 1;

/// The flag of readable segments.
pub const SEGMENT_FLAG_READ: u32 = 4;
/// The flag of writable segments.
pub const SEGMENT_FLAG_WRITE: u32 = 2;
/// The flag of executable segments.
pub const SEGMENT_FLAG_EXEC: u32 = 1;

/// The file header of an ELF file.
#[derive(Clone, Copy, Debug, PartialEq, Eq)]
pub struct Header {
    pub magic: [u8; 4],
    pub class: u8,
    pub data: u8,
    pub ident_version: u8,
    pub abi: u8,
    pub abi_version: u8,
    pub pad: [u8; 7],
    pub ty: u16,
    pub machine: u16,
    pub version: u32,
    pub entry: u64,
    pub ph_off: u64,
    pub sh_off: u64,
    pub flags: u32,
    pub header_size: u16,
    pub ph_entry_size: u16,
    pub ph_entry_num: u16,
    pub sh_entry_size: u16,
    pub sh_entry_num: u16,
    pub sh_str_index: u16,
}

impl Header {
    /// Whether the header is that of a current 64-bit little-endian System V file.
    pub open spec fn spec_is_valid(&self) -> bool {
        &&& self.magic@ == MAGIC@
        &&& self.class == CLASS_64
        &&& self.data == DATA_LE
        &&& self.ident_version == IDENT_VERSION_CURRENT
        &&& self.abi == ABI_SYSV
        &&& self.abi_version == ABI_VERSION_CURRENT
        &&& self.version == VERSION_CURRENT
    }

    /// Whether the header is that of a current 64-bit little-endian System V file.
    pub fn is_valid(&self) -> (r: bool)
        ensures
            r == self.spec_is_valid(),
            r ==> self.data == 1 && self.class == 2 && self.version == 1,
    {
        let magic_ok = self.magic[0] == MAGIC[0] && self.magic[1] == MAGIC[1] && self.magic[2]
            == MAGIC[2] && self.magic[3] == MAGIC[3];
        proof {
            if magic_ok {
                assert(self.magic@ =~= MAGIC@);
            }
        }
        magic_ok && self.class == CLASS_64 && self.data == DATA_LE && self.ident_version
            == IDENT_VERSION_CURRENT && self.abi == ABI_SYSV && self.abi_version
            == ABI_VERSION_CURRENT && self.version == VERSION_CURRENT
    }
}

/// A header passes [`Header::is_valid`] exactly when it starts with the ELF magic and describes
/// a 64-bit (class 2), little-endian (data encoding 1), System V (ABI 0, ABI version 0) file of
/// the current version (1, both in the identification and in the header).
pub proof fn law_valid_header(h: Header)
    ensures
        h.spec_is_valid() <==> (h.magic@ == seq![0x7fu8, 0x45u8, 0x4cu8, 0x46u8] && h.class == 2 && h.data
            == 1 && h.ident_version == 1 && h.abi == 0 && h.abi_version == 0 && h.version == 1),
{
    assert(MAGIC@ =~= seq![0x7fu8, 0x45u8, 0x4cu8, 0x46u8]);
}

/// An entry of the program header table of an ELF file.
#[derive(Clone, Copy, Debug, PartialEq, Eq, Structural)]
pub struct ProgramHeader {
    pub ty: u32,
    pub flags: u32,
    pub off: u64,
    pub virt_addr: u64,
    pub phys_addr: u64,
    pub file_size: u64,
    pub mem_size: u64,
    pub align: u64,
}

} // verus!
