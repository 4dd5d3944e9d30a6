//! Enabling and disabling interrupts on the current processor.
use vstd::prelude::*;
use super::CpuFlags;
use super::resched::ReschedDisabled;

verus! {

/// A type-level assertion that interrupts are disabled on the current core; rescheduling is then
/// disabled too.
pub struct IrqDisabled {
    resched_disabled: ReschedDisabled,
}

impl IrqDisabled {
    /// Creates the assertion; interrupts must be disabled when it is made and stay so while it
    /// lives.
    pub fn new(cpu: &CpuFlags) -> (r: Self)
        requires
            !cpu.irq_enabled,
    {
        Self::new_unchecked()
    }

    /// Creates the assertion without checking that interrupts are disabled.
    pub fn new_unchecked() -> (r: Self) {
        IrqDisabled { resched_disabled: ReschedDisabled::new_unchecked() }
    }

    /// The assertion that rescheduling is disabled, which follows from interrupts being disabled.
    pub fn resched_disabled(&self) -> (r: &ReschedDisabled) {
        &self.resched_disabled
    }
}

/// Whether interrupts are enabled on the current processor.
pub fn enabled(cpu: &CpuFlags) -> (r: bool)
    ensures
        r == cpu.irq_enabled,
{
    cpu.irq_enabled
}

/// Disables interrupts on the current processor.
pub fn disable(cpu: &mut CpuFlags)
    ensures
        *final(cpu) == (CpuFlags { irq_enabled: false, ..*old(cpu) }),
{
    cpu.irq_enabled = false;
}

/// Enables interrupts on the current processor.
pub fn enable(cpu: &mut CpuFlags)
    ensures
        *final(cpu) == (CpuFlags { irq_enabled: true, ..*old(cpu) }),
{
    cpu.irq_enabled = true;
}

/// Invokes `f` with interrupts disabled, and then restores the previous state of interrupts.
pub fn disable_with<R, F: FnOnce(&IrqDisabled) -> R>(cpu: &mut CpuFlags, f: F) -> (r: R)
    requires
        forall|d: &IrqDisabled| f.requires((d,)),
    ensures
        *final(cpu) == *old(cpu),
        exists|d: &IrqDisabled| f.ensures((d,), r),
{
    let prev_state = enabled(cpu);
    disable(cpu);
    let irq_disabled = IrqDisabled::new_unchecked();
    let ret = f(&irq_disabled);
    if prev_state {
        enable(cpu);
    }
    ret
}

} // verus!
