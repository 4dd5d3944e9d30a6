//! Synchronization primitives for the kernel: interrupt and rescheduling control, and spinlocks.
//!
//! The processor's interrupt flag and rescheduling-disable count are modelled by [`CpuFlags`],
//! which the operations here read and update.
pub mod irq;
pub mod resched;
pub mod spinlock;
use vstd::prelude::*;

verus! {

/// The interrupt and rescheduling state of the current processor.
#[derive(Clone, Copy, Debug, PartialEq, Eq, Structural)]
pub struct CpuFlags {
    /// Whether interrupts are enabled.
    pub irq_enabled: bool,
    /// How many times rescheduling has been disabled without being re-enabled.
    pub resched_disable_count: usize,
}

impl CpuFlags {
    /// The state of a processor with interrupts enabled and rescheduling allowed.
    pub fn new() -> (r: Self)
        ensures
            r.irq_enabled,
            r.resched_disable_count == 0,
    {
        CpuFlags { irq_enabled: true, resched_disable_count: 0 }
    }
}

} // verus!
