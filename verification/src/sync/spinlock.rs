//! Spinlocks, which may only be held while interrupts are disabled.
use vstd::prelude::*;
use super::CpuFlags;
use super::irq::{self, IrqDisabled};
use super::resched;

verus! {

/// A "raw" spinlock primitive around which higher-level abstractions can be built. Holding it
/// keeps rescheduling disabled.
pub struct RawSpinLock {
    locked: bool,
}

impl RawSpinLock {
    /// Whether the lock is held.
    pub closed spec fn is_locked(&self) -> bool {
        self.locked
    }

    /// Creates an unlocked spinlock.
    pub fn new() -> (r: Self)
        ensures
            !r.is_locked(),
    {
        RawSpinLock { locked: false }
    }

    /// Whether the lock is held.
    pub fn locked(&self) -> (r: bool)
        ensures
            r == self.is_locked(),
    {
        self.locked
    }

    /// Locks the spinlock, disabling rescheduling. Taking a lock that this core already holds
    /// would spin forever, so the lock must be free.
    pub fn lock(&mut self, cpu: &mut CpuFlags)
        requires
            !old(self).is_locked(),
            old(cpu).resched_disable_count < usize::MAX,
        ensures
            final(self).is_locked(),
            final(cpu).resched_disable_count == old(cpu).resched_disable_count + 1,
            final(cpu).irq_enabled == old(cpu).irq_enabled,
    {
        resched::disable(cpu);
        self.locked = true;
    }

    /// Unlocks the spinlock, undoing the disabling of rescheduling that locking did.
    pub fn unlock(&mut self, cpu: &mut CpuFlags)
        requires
            old(self).is_locked(),
            old(cpu).resched_disable_count > 0,
        ensures
            !final(self).is_locked(),
            final(cpu).resched_disable_count == old(cpu).resched_disable_count - 1,
            final(cpu).irq_enabled == old(cpu).irq_enabled,
    {
        self.locked = false;
        resched::enable(cpu);
    }
}

/// A lock that protects shared data by spinning until it is available.
pub struct SpinLock<T> {
    data: T,
    raw: RawSpinLock,
}

/// Proof that a [`SpinLock`] was locked; the lock is unlocked by handing the guard back.
pub struct SpinLockGuard {
    _private: (),
}

impl<T> SpinLock<T> {
    /// The protected data.
    pub closed spec fn value(&self) -> T {
        self.data
    }

    /// Whether the lock is held.
    pub closed spec fn is_locked(&self) -> bool {
        self.raw.is_locked()
    }

    /// Creates an unlocked spinlock holding `value`.
    pub fn new(value: T) -> (r: Self)
        ensures
            r.value() == value,
            !r.is_locked(),
    {
        SpinLock { data: value, raw: RawSpinLock::new() }
    }

    /// A mutable reference to the protected data, without taking the lock (exclusive access to
    /// the lock already excludes every other user).
    pub fn get_mut(&mut self) -> (r: &mut T)
        ensures
            *r == old(self).value(),
            final(self).value() == *final(r),
            final(self).is_locked() == old(self).is_locked(),
    {
        &mut self.data
    }

    /// Acquires the lock, which must be free, while interrupts are disabled.
    pub fn lock(&mut self, cpu: &mut CpuFlags, _irq_disabled: &IrqDisabled) -> (r: SpinLockGuard)
        requires
            !old(self).is_locked(),
            old(cpu).resched_disable_count < usize::MAX,
        ensures
            final(self).is_locked(),
            final(self).value() == old(self).value(),
            final(cpu).resched_disable_count == old(cpu).resched_disable_count + 1,
            final(cpu).irq_enabled == old(cpu).irq_enabled,
    {
        self.raw.lock(cpu);
        SpinLockGuard { _private: () }
    }

    /// Releases the lock that `guard` proves was taken.
    pub fn unlock(&mut self, cpu: &mut CpuFlags, guard: SpinLockGuard)
        requires
            old(self).is_locked(),
            old(cpu).resched_disable_count > 0,
        ensures
            !final(self).is_locked(),
            final(self).value() == old(self).value(),
            final(cpu).resched_disable_count == old(cpu).resched_disable_count - 1,
            final(cpu).irq_enabled == old(cpu).irq_enabled,
    {
        self.raw.unlock(cpu);
    }

    /// Disables interrupts, locks the lock, invokes `f` on the protected data, and then unlocks
    /// the lock and restores the previous state of interrupts. `f` gives the new data and a result.
    pub fn with<R, F: FnOnce(T, &IrqDisabled) -> (T, R)>(&mut self, cpu: &mut CpuFlags, f: F) -> (r: R)
        where T: Default,
        requires
            !old(self).is_locked(),
            old(cpu).resched_disable_count < usize::MAX,
            forall|d: &IrqDisabled| f.requires((old(self).value(), d)),
        ensures
            *final(cpu) == *old(cpu),
            !final(self).is_locked(),
            exists|d: &IrqDisabled| f.ensures((old(self).value(), d), (final(self).value(), r)),
    {
        let prev_state = irq::enabled(cpu);
        irq::disable(cpu);
        let irq_disabled = IrqDisabled::new_unchecked();
        let guard = self.lock(cpu, &irq_disabled);
        let mut data = T::default();
        core::mem::swap(&mut data, &mut self.data);
        let (data, ret) = f(data, &irq_disabled);
        self.data = data;
        self.unlock(cpu, guard);
        if prev_state {
            irq::enable(cpu);
        }
        ret
    }
}

} // verus!
