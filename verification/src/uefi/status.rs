//! UEFI status codes.
use vstd::prelude::*;

verus! {

/// The bit set in every error status: the top bit of the word.
pub const ERROR_BIT: usize = !(usize::MAX >> 1u32);

/// A status code returned by the firmware: success, a warning, or an error (top bit set).
#[derive(Clone, Copy, Debug, PartialEq, Eq, Structural)]
pub struct Status(pub usize);

/// The result of a firmware call: a value, or the error status.
pub type Result<T> = core::result::Result<T, Status>;

/// The code of success.
pub const SUCCESS: usize = 0;
/// The code of the warning that a glyph could not be displayed.
pub const WARN_UNKNOWN_GLYPH: usize = 1;
/// The code of the error that an image could not be loaded.
pub const LOAD_ERROR: usize = ERROR_BIT | 1;
/// The code of the error that a parameter was invalid.
pub const INVALID_PARAMETER: usize = ERROR_BIT | 2;
/// The code of the error that an operation is not supported.
pub const UNSUPPORTED: usize = ERROR_BIT | 3;
/// The code of the error that a buffer was too small; the size needed is reported.
pub const BUFFER_TOO_SMALL: usize = ERROR_BIT | 5;
/// The code of the error that a resource ran out.
pub const OUT_OF_RESOURCES: usize = ERROR_BIT | 9;
/// The code of the error that the end of a file was reached.
pub const END_OF_FILE: usize = ERROR_BIT | 31;

impl Status {
    /// Whether the status is an error: its top bit is set.
    pub open spec fn spec_is_err(self) -> bool {
        self.0 & ERROR_BIT != 0
    }

    /// Whether the status is an error: its top bit is set.
    pub fn is_err(self) -> (r: bool)
        ensures
            r == self.spec_is_err(),
    {
        self.0 & ERROR_BIT != 0
    }

    /// Whether the status is success.
    pub fn is_success(self) -> (r: bool)
        ensures
            r == (self.0 == 0),
    {
        self.0 == 0
    }

    /// Whether the status is a warning: neither success nor an error.
    pub fn is_warn(self) -> (r: bool)
        ensures
            r == (self.0 != 0 && !self.spec_is_err()),
    {
        !self.is_success() && !self.is_err()
    }

    /// `Err(self)` for an error, `Ok(())` for success or a warning.
    pub fn to_result(self) -> (r: Result<()>)
        ensures
            self.spec_is_err() ==> r == Err::<(), Status>(self),
            !self.spec_is_err() ==> r is Ok,
    {
        if self.is_err() {
            Err(self)
        } else {
            Ok(())
        }
    }

    /// The raw status code.
    pub fn to_raw(self) -> (r: usize)
        ensures
            r == self.0,
    {
        self.0
    }

    /// The status with raw code `val`.
    pub fn from_raw(val: usize) -> (r: Self)
        ensures
            r.0 == val,
    {
        Status(val)
    }
}

/// Every status is exactly one of success, a warning or an error.
pub proof fn law_status_kinds(s: Status)
    ensures
        (s.0 == 0) || (s.0 != 0 && !s.spec_is_err()) || s.spec_is_err(),
        !((s.0 == 0) && s.spec_is_err()),
{
    let v = s.0;
    let b = ERROR_BIT;
    assert(v == 0 ==> v & b == 0) by (bit_vector);
}

} // verus!
