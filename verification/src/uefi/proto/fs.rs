//! The simple file system protocol: reading whole buffers, and the information kept on files.
use vstd::prelude::*;
use crate::uefi::cstr::{is_nul_terminated, U16CStr};
use crate::uefi::status::{Result, Status, BUFFER_TOO_SMALL, END_OF_FILE};
use crate::uefi::types::{le_u16, le_u32, le_u64, read_u16_le, read_u32_le, read_u64_le, Timestamp};

verus! {

/// Open a file for reading.
pub const OPEN_MODE_READ: u64 = 1;
/// Open a file for writing.
pub const OPEN_MODE_WRITE: u64 = 2;

/// The outcome of reading a buffer of `len` bytes in full, from the outcome of one read into it.
///
/// Errors: that of the read; `END_OF_FILE` when fewer bytes than `len` were read.
pub fn read_exact_outcome(read: Result<usize>, len: usize) -> (r: Result<()>)
    ensures
        read matches Err(e) ==> r == Err::<(), Status>(e),
        read matches Ok(n) ==> (n == len ==> r is Ok) && (n != len ==> r == Err::<(), Status>(
            Status(END_OF_FILE),
        )),
{
    if read? != len {
        Err(Status(END_OF_FILE))
    } else {
        Ok(())
    }
}

/// The size of a file's information, from the status and size that the firmware returned when
/// asked for it with no buffer: the firmware is expected to report that the buffer is too small.
///
/// Errors: any other error status.
pub fn info_size_from(status: Status, size: usize) -> (r: Result<usize>)
    ensures
        status.0 != BUFFER_TOO_SMALL && status.spec_is_err() ==> r == Err::<usize, Status>(status),
        !(status.0 != BUFFER_TOO_SMALL && status.spec_is_err()) ==> r == Ok::<usize, Status>(size),
{
    if status.0 != BUFFER_TOO_SMALL {
        status.to_result()?;
    }
    Ok(size)
}

/// The number of bytes of a file's information before its name.
pub const FILE_INFO_HEADER_SIZE: usize = 80;

/// The timestamp laid out in the 16 bytes of `b` from `off`.
pub open spec fn spec_timestamp_at(b: Seq<u8>, off: int) -> Timestamp {
    Timestamp {
        year: le_u16(b, off) as u16,
        month: b[off + 2],
        day: b[off + 3],
        hour: b[off + 4],
        minute: b[off + 5],
        second: b[off + 6],
        pad1: b[off + 7],
        nanosecond: le_u32(b, off + 8) as u32,
        timezone: le_u16(b, off + 12) as i16,
        daylight: b[off + 14],
        pad2: b[off + 15],
    }
}

/// An EFI time laid out at `off` is read field by field: the year from the first two bytes,
/// low byte first, then the month, day, hour, minute and second one byte each, the nanoseconds
/// from the four bytes at `off + 8`, low byte first, and the daylight flags from byte `off + 14`.
pub proof fn law_timestamp_layout(b: Seq<u8>, off: int)
    requires
        0 <= off,
        off + 16 <= b.len(),
    ensures
        spec_timestamp_at(b, off).year == b[off] + 0x100 * b[off + 1],
        spec_timestamp_at(b, off).month == b[off + 2],
        spec_timestamp_at(b, off).day == b[off + 3],
        spec_timestamp_at(b, off).hour == b[off + 4],
        spec_timestamp_at(b, off).minute == b[off + 5],
        spec_timestamp_at(b, off).second == b[off + 6],
        spec_timestamp_at(b, off).nanosecond == b[off + 8] + 0x100 * b[off + 9] + 0x1_0000 * b[off + 10]
            + 0x100_0000 * b[off + 11],
        spec_timestamp_at(b, off).pad1 == b[off + 7],
        spec_timestamp_at(b, off).timezone == (b[off + 12] + 0x100 * b[off + 13]) as i16,
        spec_timestamp_at(b, off).daylight == b[off + 14],
        spec_timestamp_at(b, off).pad2 == b[off + 15],
{
    assert(b[off] + 0x100 * b[off + 1] <= 0xffff);
    assert(b[off + 8] + 0x100 * (b[off + 9] + 0x100 * (b[off + 10] + 0x100 * b[off + 11] as int))
        <= 0xffff_ffff);
}

/// Decodes the timestamp laid out at `off` in `b`.
fn timestamp_at(b: &[u8], off: usize) -> (r: Timestamp)
    requires
        off + 16 <= b@.len(),
    ensures
        r == spec_timestamp_at(b@, off as int),
        r.year == b@[off as int] + 0x100 * b@[off + 1],
        r.month == b@[off + 2],
        r.day == b@[off + 3],
        r.hour == b@[off + 4],
        r.minute == b@[off + 5],
        r.second == b@[off + 6],
        r.daylight == b@[off + 14],
{
    let _len = b.len();
    let zone = read_u16_le(b, off + 12);
    Timestamp {
        year: read_u16_le(b, off),
        month: b[off + 2],
        day: b[off + 3],
        hour: b[off + 4],
        minute: b[off + 5],
        second: b[off + 6],
        pad1: b[off + 7],
        nanosecond: read_u32_le(b, off + 8),
        timezone: zone as i16,
        daylight: b[off + 14],
        pad2: b[off + 15],
    }
}

/// The UCS-2 units laid out from byte `off` of `b`, as many as fit.
pub open spec fn spec_units_from(b: Seq<u8>, off: int) -> Seq<u16> {
    Seq::new(((b.len() - off) / 2) as nat, |k: int| le_u16(b, off + 2 * k) as u16)
}

/// The information the firmware keeps on a file.
pub struct FileInfo {
    info_size: u64,
    file_size: u64,
    physical_size: u64,
    create_time: Timestamp,
    last_access_time: Timestamp,
    modification_time: Timestamp,
    attr: u64,
    name: U16CStr,
}

impl FileInfo {
    /// The size of the file, in bytes.
    pub closed spec fn spec_size(&self) -> u64 {
        self.file_size
    }

    /// The space the file takes on its volume, in bytes.
    pub closed spec fn spec_physical_size(&self) -> u64 {
        self.physical_size
    }

    /// The file's attribute bits.
    pub closed spec fn spec_attr(&self) -> u64 {
        self.attr
    }

    /// The file's name, the terminating nul included.
    pub closed spec fn spec_name(&self) -> Seq<u16> {
        self.name@
    }

    /// The time the file was created.
    pub closed spec fn spec_create_time(&self) -> Timestamp {
        self.create_time
    }

    /// The time the file was last accessed.
    pub closed spec fn spec_last_access_time(&self) -> Timestamp {
        self.last_access_time
    }

    /// The time the file was last modified.
    pub closed spec fn spec_modification_time(&self) -> Timestamp {
        self.modification_time
    }

    /// Decodes the information that the firmware wrote into `buf`: the sizes, the times and the
    /// attributes, then the name, a nul-terminated UCS-2 string, which must end within `buf`.
    pub fn from_bytes(buf: &[u8]) -> (r: Self)
        requires
            buf@.len() >= FILE_INFO_HEADER_SIZE,
            exists|k: int| 0 <= k < spec_units_from(buf@, 80).len() && spec_units_from(buf@, 80)[k] == 0,
        ensures
            r.spec_size() == le_u64(buf@, 8),
            r.spec_physical_size() == le_u64(buf@, 16),
            r.spec_create_time() == spec_timestamp_at(buf@, 24),
            r.spec_last_access_time() == spec_timestamp_at(buf@, 40),
            r.spec_modification_time() == spec_timestamp_at(buf@, 56),
            r.spec_attr() == le_u64(buf@, 72),
            is_nul_terminated(r.spec_name()),
            spec_units_from(buf@, 80).take(r.spec_name().len() as int) == r.spec_name(),
    {
        let len = buf.len();
        let mut units: Vec<u16> = Vec::new();
        let mut off: usize = FILE_INFO_HEADER_SIZE;
        let ghost all = spec_units_from(buf@, 80);
        let mut k: usize = 0;
        let count = (len - FILE_INFO_HEADER_SIZE) / 2;
        loop
            invariant_except_break
                units@ == all.take(k as int),
            invariant
                count == all.len(),
                len == buf@.len(),
                len >= 80,
                off == 80 + 2 * k,
                k <= all.len(),
                all == spec_units_from(buf@, 80),
                forall|j: int| 0 <= j < k ==> all[j] != 0,
                exists|j: int| 0 <= j < all.len() && all[j] == 0,
            ensures
                k < all.len(),
                all[k as int] == 0,
                units@ == all.take(k + 1),
            decreases all.len() - k,
        {
            if k >= count {
                proof {
                    let j = choose|j: int| 0 <= j < all.len() && all[j] == 0;
                    assert(all[j] != 0);
                }
                break;
            }
            proof {
                assert(2 * k + 2 <= len - 80) by (nonlinear_arith)
                    requires k < (len - 80) / 2;
            }
            let unit = read_u16_le(buf, off);
            units.push(unit);
            proof {
                assert(units@ =~= all.take(k + 1));
            }
            if unit == 0 {
                break;
            }
            off = off + 2;
            k = k + 1;
        }
        proof {
            assert forall|i: int| 0 <= i < units@.len() - 1 implies units@[i] != 0 by {
                assert(units@[i] == all[i]);
            }
        }
        let name = match U16CStr::from_u16s_with_nul(units.as_slice()) {
            Ok(n) => n,
            Err(_) => {
                proof {
                    assert(false);
                }
                U16CStr::from_u16s_with_nul(units.as_slice()).unwrap()
            },
        };
        FileInfo {
            info_size: read_u64_le(buf, 0),
            file_size: read_u64_le(buf, 8),
            physical_size: read_u64_le(buf, 16),
            create_time: timestamp_at(buf, 24),
            last_access_time: timestamp_at(buf, 40),
            modification_time: timestamp_at(buf, 56),
            attr: read_u64_le(buf, 72),
            name,
        }
    }

    /// The size of the file, in bytes.
    pub fn size(&self) -> (r: u64)
        ensures
            r == self.spec_size(),
    {
        self.file_size
    }

    /// The space the file takes on its volume, in bytes.
    pub fn physical_size(&self) -> (r: u64)
        ensures
            r == self.spec_physical_size(),
    {
        self.physical_size
    }

    /// The file's attribute bits.
    pub fn attr(&self) -> (r: u64)
        ensures
            r == self.spec_attr(),
    {
        self.attr
    }

    /// The file's name.
    pub fn name(&self) -> (r: &U16CStr)
        ensures
            r@ == self.spec_name(),
    {
        &self.name
    }

    /// The time the file was created.
    pub fn create_time(&self) -> (r: &Timestamp)
        ensures
            *r == self.spec_create_time(),
    {
        &self.create_time
    }

    /// The time the file was last accessed.
    pub fn last_access_time(&self) -> (r: &Timestamp)
        ensures
            *r == self.spec_last_access_time(),
    {
        &self.last_access_time
    }

    /// The time the file was last modified.
    pub fn modification_time(&self) -> (r: &Timestamp)
        ensures
            *r == self.spec_modification_time(),
    {
        &self.modification_time
    }
}

} // verus!
