//! Verified core of the Corrosios microkernel's memory manager and boot support code.
use vstd::prelude::*;

pub mod num_utils;

pub mod bitmap;
pub mod collections;
pub mod err;
pub mod arch;
pub mod mm;
pub mod sync;
pub mod spin_once;
pub mod sched;
pub mod mp;
pub mod minielf;
pub mod uefi;
pub mod image;
