//! Per-processor data.
use vstd::prelude::*;
use crate::sched::CpuState;
use crate::spin_once::TakeOnce;

verus! {

/// The data kept for each processor: its number and its scheduling state.
pub struct PerCpu {
    pub cpu_num: u32,
    pub sched: CpuState,
}

impl PerCpu {
    /// The data of processor `cpu_num`, which runs nothing yet.
    pub fn new(cpu_num: u32) -> (r: Self)
        ensures
            r.cpu_num == cpu_num,
            r.sched.spec_current() is None,
            r.sched.spec_idle() is None,
            r.sched.spec_run_queue().len() == 0,
            r.sched.spec_handoff() is None,
    {
        PerCpu { cpu_num, sched: CpuState::new() }
    }
}

/// Sets up the data of the bootstrap processor, number 0, in `slot`, which must not have been
/// claimed yet: the bootstrap processor is set up once.
pub fn init_bsp_early(slot: &mut TakeOnce<PerCpu>) -> (r: &mut PerCpu)
    requires
        !old(slot).is_taken(),
    ensures
        r.cpu_num == 0,
        r.sched.spec_current() is None,
        r.sched.spec_run_queue().len() == 0,
        final(slot).is_taken(),
        final(slot).spec_value() == Some(*final(r)),
{
    slot.take_init(PerCpu::new(0)).unwrap()
}

} // verus!
