//! Disabling and re-enabling rescheduling on the current processor.
use vstd::prelude::*;
use super::CpuFlags;

verus! {

/// A type-level assertion that rescheduling is disabled on the current core.
///
/// Whenever an instance of this type is alive, users can rely on no preemptions or other
/// rescheduling will take place.
pub struct ReschedDisabled {
    _private: (),
}

impl ReschedDisabled {
    /// Creates the assertion without checking it; the caller guarantees that rescheduling is
    /// disabled for as long as the value lives.
    pub fn new_unchecked() -> (r: Self) {
        ReschedDisabled { _private: () }
    }
}

/// A guard that disables rescheduling on the current core for as long as it is held, and
/// re-enables it when released.
pub struct ReschedGuard {
    resched_disabled: ReschedDisabled,
}

impl ReschedGuard {
    /// Disables rescheduling and returns a guard for it.
    pub fn new(cpu: &mut CpuFlags) -> (r: Self)
        requires
            old(cpu).resched_disable_count < usize::MAX,
        ensures
            *final(cpu) == (CpuFlags {
                resched_disable_count: (old(cpu).resched_disable_count + 1) as usize,
                ..*old(cpu)
            }),
    {
        disable(cpu);
        ReschedGuard { resched_disabled: ReschedDisabled::new_unchecked() }
    }

    /// The assertion that rescheduling is disabled while the guard is held.
    pub fn resched_disabled(&self) -> (r: &ReschedDisabled) {
        &self.resched_disabled
    }

    /// Releases the guard, re-enabling rescheduling.
    pub fn release(self, cpu: &mut CpuFlags)
        requires
            old(cpu).resched_disable_count > 0,
        ensures
            *final(cpu) == (CpuFlags {
                resched_disable_count: (old(cpu).resched_disable_count - 1) as usize,
                ..*old(cpu)
            }),
    {
        enable(cpu);
    }
}

/// Disables rescheduling on the current core: one more `enable` is needed to allow it again.
pub fn disable(cpu: &mut CpuFlags)
    requires
        old(cpu).resched_disable_count < usize::MAX,
    ensures
        final(cpu).resched_disable_count == old(cpu).resched_disable_count + 1,
        final(cpu).irq_enabled == old(cpu).irq_enabled,
{
    cpu.resched_disable_count = cpu.resched_disable_count + 1;
}

/// Undoes one `disable` of rescheduling on the current core.
pub fn enable(cpu: &mut CpuFlags)
    requires
        old(cpu).resched_disable_count > 0,
    ensures
        final(cpu).resched_disable_count == old(cpu).resched_disable_count - 1,
        final(cpu).irq_enabled == old(cpu).irq_enabled,
{
    cpu.resched_disable_count = cpu.resched_disable_count - 1;
}

/// Whether rescheduling can currently happen: it is not disabled and interrupts are enabled.
pub fn enabled(cpu: &CpuFlags) -> (r: bool)
    ensures
        r == (cpu.resched_disable_count == 0 && cpu.irq_enabled),
{
    enabled_in_irq(cpu) && super::irq::enabled(cpu)
}

/// Whether rescheduling is not disabled, whatever the state of interrupts.
pub fn enabled_in_irq(cpu: &CpuFlags) -> (r: bool)
    ensures
        r == (cpu.resched_disable_count == 0),
{
    cpu.resched_disable_count == 0
}

/// Disabling rescheduling and then enabling it again restores the processor's state.
pub proof fn lemma_disable_enable(cpu: CpuFlags, mid: CpuFlags, fin: CpuFlags)
    requires
        mid.resched_disable_count == cpu.resched_disable_count + 1,
        mid.irq_enabled == cpu.irq_enabled,
        fin.resched_disable_count == mid.resched_disable_count - 1,
        fin.irq_enabled == mid.irq_enabled,
    ensures
        fin == cpu,
{
}

} // verus!
