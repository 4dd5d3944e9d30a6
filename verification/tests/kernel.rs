use corrosios::err::Error;
use corrosios::mm::pmm::PhysManager;
use corrosios::mm::pt::PageTableMemory;
use corrosios::mm::types::{AccessMode, AccessType, PhysFrameNum, Protection, VirtAddr, VirtPageNum};
use corrosios::mm::vm::aspace::MapBase;
use corrosios::mm::vm::low_aspace::make_low_addr_space;
use corrosios::mm::vm::object::{AnyVmObject, LazyVmObject};
use corrosios::mm::vm::page_fault;
use corrosios::mp::{init_bsp_early, PerCpu};
use corrosios::sched::{CpuState, HandoffState, KernelStack, Scheduler, Thread, ThreadState};
use corrosios::spin_once::{Lazy, Once, TakeOnce};
use corrosios::sync::irq::{self, disable_with, IrqDisabled};
use corrosios::sync::resched::{self, ReschedGuard};
use corrosios::sync::spinlock::{RawSpinLock, SpinLock};
use corrosios::sync::CpuFlags;

fn stack(n: usize) -> KernelStack {
    KernelStack::new(VirtAddr::new(n * 0x10000), VirtAddr::new(n * 0x10000 + 0x4000))
}

#[test]
fn irq_enable_disable() {
    let mut cpu = CpuFlags::new();
    assert!(irq::enabled(&cpu));
    irq::disable(&mut cpu);
    assert!(!irq::enabled(&cpu));
    irq::enable(&mut cpu);
    assert!(irq::enabled(&cpu));
}

#[test]
fn disable_with_restores_previous_state() {
    let mut cpu = CpuFlags::new();
    let r = disable_with(&mut cpu, |_d: &IrqDisabled| 7);
    assert_eq!(r, 7);
    assert!(cpu.irq_enabled);
    irq::disable(&mut cpu);
    disable_with(&mut cpu, |_d: &IrqDisabled| ());
    assert!(!cpu.irq_enabled);
}

#[test]
fn resched_counts_nesting() {
    let mut cpu = CpuFlags::new();
    assert!(resched::enabled(&cpu));
    resched::disable(&mut cpu);
    resched::disable(&mut cpu);
    assert!(!resched::enabled_in_irq(&cpu));
    resched::enable(&mut cpu);
    assert!(!resched::enabled(&cpu));
    resched::enable(&mut cpu);
    assert!(resched::enabled(&cpu));
    irq::disable(&mut cpu);
    assert!(resched::enabled_in_irq(&cpu));
    assert!(!resched::enabled(&cpu));
}

#[test]
fn resched_guard_round_trip() {
    let mut cpu = CpuFlags::new();
    let g = ReschedGuard::new(&mut cpu);
    assert_eq!(cpu.resched_disable_count, 1);
    g.release(&mut cpu);
    assert_eq!(cpu, CpuFlags::new());
}

#[test]
fn spinlock_lock_unlock() {
    let mut cpu = CpuFlags::new();
    let mut raw = RawSpinLock::new();
    raw.lock(&mut cpu);
    assert!(raw.locked());
    assert_eq!(cpu.resched_disable_count, 1);
    raw.unlock(&mut cpu);
    assert!(!raw.locked());
    assert_eq!(cpu.resched_disable_count, 0);
}

#[test]
fn spinlock_with_updates_data() {
    let mut cpu = CpuFlags::new();
    let mut lock = SpinLock::new(5u32);
    let r = lock.with(&mut cpu, |v: u32, _d: &IrqDisabled| (v + 1, v * 2));
    assert_eq!(r, 10);
    assert_eq!(*lock.get_mut(), 6);
    assert_eq!(cpu, CpuFlags::new());
    irq::disable(&mut cpu);
    let d = IrqDisabled::new(&cpu);
    let g = lock.lock(&mut cpu, &d);
    *lock.get_mut() = 9;
    lock.unlock(&mut cpu, g);
    assert_eq!(*lock.get_mut(), 9);
}

#[test]
fn once_first_initializer_wins() {
    let mut o: Once<u32> = Once::new();
    assert!(o.get().is_none());
    assert_eq!(*o.get_or_init_with(|| 3), 3);
    assert_eq!(*o.get_or_init_with(|| 4), 3);
    assert_eq!(o.get(), Some(&3));
    let mut p: Once<u32> = Once::new();
    assert_eq!(*p.init(8), 8);
}

#[test]
fn lazy_computes_once() {
    let mut l = Lazy::new(|| 41 + 1);
    assert_eq!(*l.get(), 42);
    assert_eq!(*l.get(), 42);
}

#[test]
fn take_once_gives_access_once() {
    let mut t: TakeOnce<u32> = TakeOnce::new();
    {
        let v = t.take_init(5).unwrap();
        *v += 1;
    }
    assert!(t.take_init(9).is_none());
}

#[test]
fn per_cpu_init() {
    let p = PerCpu::new(3);
    assert_eq!(p.cpu_num, 3);
    let mut slot: TakeOnce<PerCpu> = TakeOnce::new();
    let bsp = init_bsp_early(&mut slot);
    assert_eq!(bsp.cpu_num, 0);
}

#[test]
fn run_queue_is_fifo_with_idle_fallback() {
    let mut cpu_state = CpuState::new();
    let _ = &mut cpu_state;
    let cpu = CpuFlags::new();
    let mut s = Scheduler::new();
    let a = s.spawn(&cpu, Thread::new(b"a", stack(1)));
    let b = s.spawn(&cpu, Thread::new(b"b", stack(2)));
    assert_eq!((a, b), (0, 1));
    let (first, idle) = s.start(&cpu, Thread::new(b"idle", stack(3)));
    assert_eq!(first, a);
    assert_eq!(idle, 2);
    assert_eq!(s.thread(a).state(), ThreadState::Running);
    s.complete_context_switch_handoff(&cpu);
    assert_eq!(s.current(), Some(a));
    let (old, new) = s.exit_current(&cpu, VirtAddr::new(0x10000 + 0x100));
    assert_eq!((old, new), (a, b));
    assert_eq!(s.thread(a).state(), ThreadState::Dead);
    s.complete_context_switch_handoff(&cpu);
    assert_eq!(s.current(), Some(b));
    let (old, new) = s.exit_current(&cpu, VirtAddr::new(0x20000 + 0x100));
    assert_eq!((old, new), (b, idle));
}

#[test]
fn thread_accessors() {
    let t = Thread::new(b"worker", stack(4));
    assert_eq!(t.name().as_bytes(), b"worker");
    assert_eq!(t.stack().bottom().as_usize(), 0x40000);
    assert_eq!(t.stack().top().as_usize(), 0x44000);
    assert!(t.stack().contains(VirtAddr::new(0x40010)));
    assert!(!t.stack().contains(VirtAddr::new(0x44000)));
    assert!(t.addr_space().is_none());
    assert_eq!(t.state(), ThreadState::Ready);
    let h = HandoffState { new_thread: 1, thread_to_free: None };
    assert_eq!(h.new_thread, 1);
}

#[test]
fn page_fault_errors_and_success() {
    let mut pmm = PhysManager::new(PhysFrameNum::new(4096));
    pmm.add_free_range(PhysFrameNum::new(0), PhysFrameNum::new(4096));
    let mut mem = PageTableMemory::new();
    let cpu = CpuFlags::new();
    let mut s = Scheduler::new();
    assert_eq!(
        page_fault(&mut s, &mut pmm, &mut mem, VirtAddr::new(0x1000), AccessType::Read),
        Err(Error::InvalidState)
    );
    assert_eq!(
        page_fault(&mut s, &mut pmm, &mut mem, VirtAddr::new(usize::MAX), AccessType::Read),
        Err(Error::BadAddress)
    );
    let mut aspace = make_low_addr_space(&mut pmm, &mut mem, AccessMode::User).unwrap();
    let root = aspace.root_slice();
    let obj = aspace.add_object(AnyVmObject::Lazy(LazyVmObject::new(1)));
    aspace
        .map(&root, MapBase::Fixed(VirtPageNum::new(0x10)), 1, 0, obj, Protection { read: true, write: true, execute: false })
        .unwrap();
    s.spawn(&cpu, Thread::with_addr_space(b"user", stack(5), aspace));
    s.spawn(&cpu, Thread::new(b"kernel", stack(6)));
    s.start(&cpu, Thread::new(b"idle", stack(7)));
    s.complete_context_switch_handoff(&cpu);
    assert!(page_fault(&mut s, &mut pmm, &mut mem, VirtAddr::new(0x10 << 12), AccessType::Write).is_ok());
    assert_eq!(
        page_fault(&mut s, &mut pmm, &mut mem, VirtAddr::new(0x11 << 12), AccessType::Write),
        Err(Error::BadAddress)
    );
}
