//! Kernel error codes.
use vstd::prelude::*;

verus! {

/// The error codes reported by kernel operations.
#[derive(Clone, Copy, Debug, PartialEq, Eq, Structural)]
pub enum Error {
    /// A memory allocation failed.
    OutOfMemory,
    /// A non-memory resource (such as address space) was exhausted.
    OutOfResources,
    /// The requested range overlaps an existing one.
    ResourceOverlap,
    /// An address was not mapped or lies outside the accepted range.
    BadAddress,
    /// An argument was out of range.
    InvalidArgument,
    /// The object is in a state that does not allow the operation.
    InvalidState,
    /// The requested access is not permitted.
    NoPerms,
}

/// The result type used throughout the kernel.
pub type Result<T> = core::result::Result<T, Error>;

} // verus!
