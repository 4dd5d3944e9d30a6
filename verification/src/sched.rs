//! The scheduler's bookkeeping: threads, the run queue of the current processor, and the
//! hand-off of the processor from one thread to the next across a context switch.
//!
//! Threads are identified by their index in the scheduler's thread table. The context switch
//! itself (saving and restoring registers, switching page tables) is done by the caller between
//! [`Scheduler::begin_context_switch_handoff`] and
//! [`Scheduler::complete_context_switch_handoff`].
use vstd::prelude::*;
use crate::err::{Error, Result};
use crate::mm::pmm::PhysManager;
use crate::mm::pt::PageTableMemory;
use crate::mm::types::{AccessType, VirtAddr, VirtPageNum};
use crate::mm::vm::aspace::fault_outcome;
use crate::mm::vm::low_aspace::LowAddrSpace;
use crate::mm::vm::tree::Name;
use crate::sync::CpuFlags;

verus! {

/// The life cycle of a thread.
#[derive(Clone, Copy, Debug, PartialEq, Eq, Structural)]
pub enum ThreadState {
    /// Waiting in the run queue.
    Ready,
    /// Running on a processor.
    Running,
    /// Blocked.
    Parked,
    /// Exited; its resources are released at the next hand-off.
    Dead,
}

/// The kernel stack of a thread: the addresses `bottom..top`.
#[derive(Clone, Copy, Debug, PartialEq, Eq, Structural)]
pub struct KernelStack {
    bottom: VirtAddr,
    top: VirtAddr,
}

impl KernelStack {
    /// The stack over `bottom..top`.
    pub fn new(bottom: VirtAddr, top: VirtAddr) -> (r: Self)
        requires
            bottom@ <= top@,
        ensures
            r.spec_bottom() == bottom,
            r.spec_top() == top,
    {
        KernelStack { bottom, top }
    }

    /// The lowest address of the stack.
    pub closed spec fn spec_bottom(&self) -> VirtAddr {
        self.bottom
    }

    /// The address just above the stack.
    pub closed spec fn spec_top(&self) -> VirtAddr {
        self.top
    }

    /// The lowest address of the stack.
    pub fn bottom(&self) -> (r: VirtAddr)
        ensures
            r == self.spec_bottom(),
    {
        self.bottom
    }

    /// The address just above the stack.
    pub fn top(&self) -> (r: VirtAddr)
        ensures
            r == self.spec_top(),
    {
        self.top
    }

    /// Whether `addr` lies on the stack.
    pub fn contains(&self, addr: VirtAddr) -> (r: bool)
        ensures
            r == (self.spec_bottom()@ <= addr@ < self.spec_top()@),
    {
        self.bottom.as_usize() <= addr.as_usize() && addr.as_usize() < self.top.as_usize()
    }
}

/// A kernel thread.
pub struct Thread {
    state: ThreadState,
    stack: KernelStack,
    addr_space: Option<LowAddrSpace>,
    name: Name,
}

impl Thread {
    /// The thread's state.
    pub closed spec fn spec_state(&self) -> ThreadState {
        self.state
    }

    /// The thread's stack.
    pub closed spec fn spec_stack(&self) -> KernelStack {
        self.stack
    }

    /// The low address space the thread runs in, if any.
    pub closed spec fn spec_addr_space(&self) -> Option<LowAddrSpace> {
        self.addr_space
    }

    /// The thread's name.
    pub closed spec fn spec_name(&self) -> Seq<u8> {
        self.name@
    }

    /// Its address space, if any, is valid.
    pub open spec fn wf(&self) -> bool {
        self.spec_addr_space() matches Some(a) ==> a.wf()
    }

    /// Creates a ready thread named `name` running on `stack`, in no low address space.
    pub fn new(name: &[u8], stack: KernelStack) -> (r: Self)
        ensures
            r.wf(),
            r.spec_state() == ThreadState::Ready,
            r.spec_stack() == stack,
            r.spec_addr_space() is None,
            r.spec_name() == name@.take(if name@.len() < 32 {
                name@.len() as int
            } else {
                32
            }),
    {
        Thread { state: ThreadState::Ready, stack, addr_space: None, name: Name::new(name) }
    }

    /// Creates a ready thread named `name` running on `stack` in the low address space `aspace`.
    pub fn with_addr_space(name: &[u8], stack: KernelStack, aspace: LowAddrSpace) -> (r: Self)
        requires
            aspace.wf(),
        ensures
            r.wf(),
            r.spec_state() == ThreadState::Ready,
            r.spec_stack() == stack,
            r.spec_addr_space() == Some(aspace),
            r.spec_name() == name@.take(if name@.len() < 32 {
                name@.len() as int
            } else {
                32
            }),
    {
        Thread { state: ThreadState::Ready, stack, addr_space: Some(aspace), name: Name::new(name) }
    }

    /// The thread's name.
    pub fn name(&self) -> (r: &Name)
        ensures
            r@ == self.spec_name(),
    {
        &self.name
    }

    /// The thread's stack.
    pub fn stack(&self) -> (r: &KernelStack)
        ensures
            *r == self.spec_stack(),
    {
        &self.stack
    }

    /// The low address space the thread runs in, if any.
    pub fn addr_space(&self) -> (r: Option<&LowAddrSpace>)
        ensures
            r == match self.spec_addr_space() {
                Some(a) => Some(&a),
                None => None::<&LowAddrSpace>,
            },
    {
        self.addr_space.as_ref()
    }

    /// The thread's state.
    pub fn state(&self) -> (r: ThreadState)
        ensures
            r == self.spec_state(),
    {
        self.state
    }

    /// Handles a fault on page `vpn` of the thread's low address space.
    ///
    /// Errors: `BadAddress` when the thread has no low address space; otherwise those of
    /// [`AddrSpace::fault`](crate::mm::vm::aspace::AddrSpace::fault).
    pub fn fault(&mut self, pmm: &mut PhysManager, mem: &mut PageTableMemory, vpn: VirtPageNum, access_type: AccessType) -> (r: Result<()>)
        requires
            old(self).wf(),
            old(pmm).wf(),
        ensures
            final(self).wf(),
            final(pmm).wf(),
            final(self).spec_state() == old(self).spec_state(),
            final(self).spec_stack() == old(self).spec_stack(),
            final(self).spec_name() == old(self).spec_name(),
            old(self).spec_addr_space() is None ==> r == Err::<(), Error>(Error::BadAddress)
                && final(self).spec_addr_space() is None,
            old(self).spec_addr_space() matches Some(a) ==> final(self).spec_addr_space() matches Some(b) && {
                &&& b.spec_tree() == a.spec_tree()
                &&& b.spec_ops() == a.spec_ops()
                &&& a.fault_error(vpn, access_type) matches Some(e) ==> r == Err::<(), Error>(e)
                &&& fault_outcome(a, b, *old(pmm), *final(pmm), *old(mem), *final(mem), vpn, access_type, r)
            },
    {
        match &mut self.addr_space {
            Some(aspace) => aspace.fault(pmm, mem, vpn, access_type),
            None => Err(Error::BadAddress),
        }
    }
}

/// A context switch in progress: the thread taking over the processor, and the thread to
/// release once the switch is done.
#[derive(Clone, Copy, Debug, PartialEq, Eq, Structural)]
pub struct HandoffState {
    pub new_thread: usize,
    pub thread_to_free: Option<usize>,
}

/// The scheduling state of one processor.
pub struct CpuState {
    current_thread: Option<usize>,
    idle_thread: Option<usize>,
    run_queue: Vec<usize>,
    handoff_state: Option<HandoffState>,
}

impl CpuState {
    /// The thread running on the processor.
    pub closed spec fn spec_current(&self) -> Option<usize> {
        self.current_thread
    }

    /// The thread run when no other is ready.
    pub closed spec fn spec_idle(&self) -> Option<usize> {
        self.idle_thread
    }

    /// The ready threads, first to run first.
    pub closed spec fn spec_run_queue(&self) -> Seq<usize> {
        self.run_queue@
    }

    /// The context switch in progress, if any.
    pub closed spec fn spec_handoff(&self) -> Option<HandoffState> {
        self.handoff_state
    }

    /// The state of a processor that runs nothing yet.
    pub fn new() -> (r: Self)
        ensures
            r.spec_current() is None,
            r.spec_idle() is None,
            r.spec_run_queue() == Seq::<usize>::empty(),
            r.spec_handoff() is None,
    {
        CpuState { current_thread: None, idle_thread: None, run_queue: Vec::new(), handoff_state: None }
    }

    /// Takes the next thread to run: the first of the run queue, or the idle thread when the
    /// queue is empty. Some thread must be available.
    pub fn take_ready_thread(&mut self) -> (r: usize)
        requires
            old(self).spec_run_queue().len() > 0 || old(self).spec_idle() is Some,
        ensures
            old(self).spec_run_queue().len() > 0 ==> r == old(self).spec_run_queue()[0]
                && final(self).spec_run_queue() == old(self).spec_run_queue().drop_first(),
            old(self).spec_run_queue().len() == 0 ==> Some(r) == old(self).spec_idle()
                && final(self).spec_run_queue() == old(self).spec_run_queue(),
            final(self).spec_current() == old(self).spec_current(),
            final(self).spec_idle() == old(self).spec_idle(),
            final(self).spec_handoff() == old(self).spec_handoff(),
    {
        if self.run_queue.len() > 0 {
            self.run_queue.remove(0)
        } else {
            match self.idle_thread {
                Some(t) => t,
                None => {
                    proof {
                        assert(false);
                    }
                    0
                },
            }
        }
    }
}

/// Every thread and the scheduling state of the (single) processor.
pub struct Scheduler {
    threads: Vec<Thread>,
    owners: Vec<usize>,
    cpu: CpuState,
}

/// Whether every id in `ids` refers to one of `n` threads.
pub open spec fn ids_valid(ids: Seq<usize>, n: int) -> bool {
    forall|i: int| 0 <= i < ids.len() ==> #[trigger] ids[i] < n
}

/// Whether every thread of `threads` is valid.
pub open spec fn threads_wf(threads: Seq<Thread>) -> bool {
    forall|i: int| 0 <= i < threads.len() ==> (#[trigger] threads[i]).wf()
}

/// Ids valid among `n` threads stay valid among more, and after dropping or adding valid ones.
proof fn lemma_ids_valid(ids: Seq<usize>, n: int, m: int, x: usize)
    requires
        ids_valid(ids, n),
        n <= m,
    ensures
        ids_valid(ids, m),
        x < m ==> ids_valid(ids.push(x), m),
        ids.len() > 0 ==> ids_valid(ids.drop_first(), m),
        forall|k: int| 0 <= k < ids.len() ==> ids_valid(#[trigger] ids.remove(k), m),
{
    assert forall|k: int| 0 <= k < ids.len() implies ids_valid(#[trigger] ids.remove(k), m) by {
        assert forall|i: int| 0 <= i < ids.remove(k).len() implies #[trigger] ids.remove(k)[i] < m by {
            if i < k {
                assert(ids.remove(k)[i] == ids[i]);
            } else {
                assert(ids.remove(k)[i] == ids[i + 1]);
            }
        }
    }
    if x < m {
        assert forall|i: int| 0 <= i < ids.push(x).len() implies #[trigger] ids.push(x)[i] < m by {
            if i < ids.len() {
                assert(ids.push(x)[i] == ids[i]);
            }
        }
    }
    if ids.len() > 0 {
        assert forall|i: int| 0 <= i < ids.drop_first().len() implies #[trigger] ids.drop_first()[i] < m by {
            assert(ids.drop_first()[i] == ids[i + 1]);
        }
    }
}

/// Adding a valid thread, or replacing one by a valid thread, keeps the threads valid.
proof fn lemma_threads_wf(threads: Seq<Thread>, t: Thread, k: int)
    requires
        threads_wf(threads),
        t.wf(),
    ensures
        threads_wf(threads.push(t)),
        0 <= k < threads.len() ==> threads_wf(threads.update(k, t)),
{
    assert forall|i: int| 0 <= i < threads.push(t).len() implies (#[trigger] threads.push(t)[i]).wf() by {
        if i < threads.len() {
            assert(threads.push(t)[i] == threads[i]);
        }
    }
    if 0 <= k < threads.len() {
        assert forall|i: int| 0 <= i < threads.update(k, t).len() implies (#[trigger] threads.update(k, t)[i]).wf() by {
            if i != k {
                assert(threads.update(k, t)[i] == threads[i]);
            }
        }
    }
}

impl Scheduler {
    /// The threads, by id.
    pub closed spec fn spec_threads(&self) -> Seq<Thread> {
        self.threads@
    }

    /// The threads that the scheduler keeps alive, in the order they were spawned.
    pub closed spec fn spec_owners(&self) -> Seq<usize> {
        self.owners@
    }

    /// The scheduling state of the processor.
    pub closed spec fn spec_cpu(&self) -> CpuState {
        self.cpu
    }

    /// Every thread id held refers to a thread, and every thread is valid.
    pub open spec fn wf(&self) -> bool {
        let n = self.spec_threads().len() as int;
        &&& threads_wf(self.spec_threads())
        &&& ids_valid(self.spec_owners(), n)
        &&& ids_valid(self.spec_cpu().spec_run_queue(), n)
        &&& self.spec_cpu().spec_current() matches Some(t) ==> t < n
        &&& self.spec_cpu().spec_idle() matches Some(t) ==> t < n
        &&& self.spec_cpu().spec_handoff() matches Some(h) ==> h.new_thread < n && (h.thread_to_free
            matches Some(t) ==> t < n)
    }

    /// A scheduler with no threads.
    pub fn new() -> (r: Self)
        ensures
            r.wf(),
            r.spec_threads().len() == 0,
            r.spec_owners().len() == 0,
            r.spec_cpu().spec_current() is None,
            r.spec_cpu().spec_idle() is None,
            r.spec_cpu().spec_run_queue().len() == 0,
            r.spec_cpu().spec_handoff() is None,
    {
        Scheduler { threads: Vec::new(), owners: Vec::new(), cpu: CpuState::new() }
    }

    /// The thread running on the processor, if any.
    pub fn current(&self) -> (r: Option<usize>)
        ensures
            r == self.spec_cpu().spec_current(),
    {
        self.cpu.current_thread
    }

    /// The thread with id `t`.
    pub fn thread(&self, t: usize) -> (r: &Thread)
        requires
            t < self.spec_threads().len(),
        ensures
            *r == self.spec_threads()[t as int],
    {
        &self.threads[t]
    }

    /// Adds `thread` to the scheduler: it is kept alive by the scheduler and queued to run last.
    /// Returns its id.
    pub fn spawn(&mut self, cpu: &CpuFlags, thread: Thread) -> (r: usize)
        requires
            old(self).wf(),
            thread.wf(),
            cpu.resched_disable_count == 0,
        ensures
            final(self).wf(),
            r == old(self).spec_threads().len(),
            final(self).spec_threads() == old(self).spec_threads().push(thread),
            final(self).spec_owners() == old(self).spec_owners().push(r),
            final(self).spec_cpu().spec_run_queue() == old(self).spec_cpu().spec_run_queue().push(r),
            final(self).spec_cpu().spec_current() == old(self).spec_cpu().spec_current(),
            final(self).spec_cpu().spec_idle() == old(self).spec_cpu().spec_idle(),
            final(self).spec_cpu().spec_handoff() == old(self).spec_cpu().spec_handoff(),
    {
        let id = self.threads.len();
        proof {
            let n = old(self).threads@.len() as int;
            lemma_threads_wf(old(self).threads@, thread, 0);
            lemma_ids_valid(old(self).owners@, n, n + 1, id);
            lemma_ids_valid(old(self).cpu.run_queue@, n, n + 1, id);
        }
        self.threads.push(thread);
        self.owners.push(id);
        self.cpu.run_queue.push(id);
        id
    }

    /// Records that the processor is being handed to `new_thread`, and that `thread_to_free`, if
    /// any, is to be released once the switch is done. No other hand-off may be in progress.
    pub fn begin_context_switch_handoff(&mut self, cpu: &CpuFlags, new_thread: usize, thread_to_free: Option<usize>)
        requires
            old(self).wf(),
            cpu.resched_disable_count == 0,
            old(self).spec_cpu().spec_handoff() is None,
            new_thread < old(self).spec_threads().len(),
            thread_to_free matches Some(t) ==> t < old(self).spec_threads().len(),
        ensures
            final(self).wf(),
            final(self).spec_cpu().spec_handoff() == Some(HandoffState { new_thread, thread_to_free }),
            final(self).spec_cpu().spec_current() == old(self).spec_cpu().spec_current(),
            final(self).spec_cpu().spec_idle() == old(self).spec_cpu().spec_idle(),
            final(self).spec_cpu().spec_run_queue() == old(self).spec_cpu().spec_run_queue(),
            final(self).spec_threads() == old(self).spec_threads(),
            final(self).spec_owners() == old(self).spec_owners(),
    {
        self.cpu.handoff_state = Some(HandoffState { new_thread, thread_to_free });
    }

    /// Completes the hand-off in progress: its new thread becomes the current one, and the thread
    /// to release, which the scheduler must be keeping alive, is no longer kept.
    pub fn complete_context_switch_handoff(&mut self, cpu: &CpuFlags)
        requires
            old(self).wf(),
            cpu.resched_disable_count == 0,
            old(self).spec_cpu().spec_handoff() matches Some(h) && (h.thread_to_free matches Some(t)
                ==> old(self).spec_owners().contains(t)),
        ensures
            final(self).wf(),
            final(self).spec_cpu().spec_handoff() is None,
            final(self).spec_cpu().spec_current() == Some(old(self).spec_cpu().spec_handoff().unwrap().new_thread),
            final(self).spec_cpu().spec_idle() == old(self).spec_cpu().spec_idle(),
            final(self).spec_cpu().spec_run_queue() == old(self).spec_cpu().spec_run_queue(),
            final(self).spec_threads() == old(self).spec_threads(),
            old(self).spec_cpu().spec_handoff().unwrap().thread_to_free matches Some(t) ==> {
                let k = old(self).spec_owners().index_of_first(t).unwrap();
                final(self).spec_owners() == old(self).spec_owners().remove(k)
            },
            old(self).spec_cpu().spec_handoff().unwrap().thread_to_free is None ==> final(self).spec_owners()
                == old(self).spec_owners(),
    {
        let handoff = self.cpu.handoff_state.unwrap();
        self.cpu.handoff_state = None;
        self.cpu.current_thread = Some(handoff.new_thread);
        proof {
            let n = self.threads@.len() as int;
            lemma_ids_valid(old(self).owners@, n, n, 0);
        }
        if let Some(to_free) = handoff.thread_to_free {
            let k = find_owner(&self.owners, to_free);
            self.owners.remove(k);
        }
    }

    /// Starts scheduling on the processor: takes the first ready thread, which must exist, marks it
    /// running, adds `idle` as the idle thread, and begins the hand-off to the first thread.
    /// Returns the ids of the first thread and of the idle thread.
    pub fn start(&mut self, cpu: &CpuFlags, idle: Thread) -> (r: (usize, usize))
        requires
            old(self).wf(),
            idle.wf(),
            cpu.resched_disable_count == 0,
            old(self).spec_cpu().spec_run_queue().len() > 0,
            old(self).spec_cpu().spec_handoff() is None,
        ensures
            final(self).wf(),
            r.0 == old(self).spec_cpu().spec_run_queue()[0],
            r.1 == old(self).spec_threads().len(),
            final(self).spec_cpu().spec_run_queue() == old(self).spec_cpu().spec_run_queue().drop_first(),
            final(self).spec_cpu().spec_idle() == Some(r.1),
            final(self).spec_cpu().spec_handoff() == Some(HandoffState { new_thread: r.0, thread_to_free: None }),
            final(self).spec_threads().len() == old(self).spec_threads().len() + 1,
            final(self).spec_threads()[r.0 as int].spec_state() == ThreadState::Running,
            final(self).spec_threads()[r.1 as int] == idle,
            final(self).spec_owners() == old(self).spec_owners(),
    {
        let new_thread = self.cpu.take_ready_thread();
        proof {
            let n = self.threads@.len() as int;
            lemma_ids_valid(old(self).cpu.run_queue@, n, n, 0);
        }
        self.set_state(new_thread, ThreadState::Running);
        let idle_id = self.threads.len();
        proof {
            let n = self.threads@.len() as int;
            lemma_threads_wf(self.threads@, idle, 0);
            lemma_ids_valid(self.owners@, n, n + 1, 0);
            lemma_ids_valid(self.cpu.run_queue@, n, n + 1, 0);
        }
        self.threads.push(idle);
        self.cpu.idle_thread = Some(idle_id);
        self.begin_context_switch_handoff(cpu, new_thread, None);
        (new_thread, idle_id)
    }

    /// Switches the current thread out for good: the current thread, which must exist and be
    /// running on its own stack (`stack_addr` is an address on the stack in use), is marked dead
    /// and is to be released; the next ready thread is marked running and the hand-off to it
    /// begins. Rescheduling must be enabled. Returns the ids of the old and new threads.
    pub fn exit_current(&mut self, cpu: &CpuFlags, stack_addr: VirtAddr) -> (r: (usize, usize))
        requires
            old(self).wf(),
            cpu.resched_disable_count == 0,
            cpu.irq_enabled,
            old(self).spec_cpu().spec_current() matches Some(t) && {
                let stack = old(self).spec_threads()[t as int].spec_stack();
                stack.spec_bottom()@ <= stack_addr@ < stack.spec_top()@
            },
            old(self).spec_cpu().spec_run_queue().len() > 0 || old(self).spec_cpu().spec_idle() is Some,
            old(self).spec_cpu().spec_handoff() is None,
        ensures
            final(self).wf(),
            Some(r.0) == old(self).spec_cpu().spec_current(),
            old(self).spec_cpu().spec_run_queue().len() > 0 ==> r.1 == old(self).spec_cpu().spec_run_queue()[0]
                && final(self).spec_cpu().spec_run_queue() == old(self).spec_cpu().spec_run_queue().drop_first(),
            old(self).spec_cpu().spec_run_queue().len() == 0 ==> Some(r.1) == old(self).spec_cpu().spec_idle()
                && final(self).spec_cpu().spec_run_queue() == old(self).spec_cpu().spec_run_queue(),
            r.1 != r.0 ==> final(self).spec_threads()[r.0 as int].spec_state() == ThreadState::Dead,
            final(self).spec_threads()[r.1 as int].spec_state() == ThreadState::Running,
            final(self).spec_threads().len() == old(self).spec_threads().len(),
            final(self).spec_cpu().spec_handoff() == Some(HandoffState { new_thread: r.1, thread_to_free: Some(r.0) }),
            final(self).spec_owners() == old(self).spec_owners(),
    {
        let old_thread = self.cpu.current_thread.unwrap();
        self.set_state(old_thread, ThreadState::Dead);
        let new_thread = self.cpu.take_ready_thread();
        proof {
            let n = self.threads@.len() as int;
            lemma_ids_valid(old(self).cpu.run_queue@, n, n, 0);
        }
        self.set_state(new_thread, ThreadState::Running);
        self.begin_context_switch_handoff(cpu, new_thread, Some(old_thread));
        (old_thread, new_thread)
    }

    /// Sets the state of thread `t`.
    fn set_state(&mut self, t: usize, state: ThreadState)
        requires
            old(self).wf(),
            t < old(self).spec_threads().len(),
        ensures
            final(self).wf(),
            final(self).spec_threads().len() == old(self).spec_threads().len(),
            final(self).spec_threads()[t as int].spec_state() == state,
            forall|i: int| 0 <= i < old(self).spec_threads().len() && i != t ==> #[trigger] final(self).spec_threads()[i]
                == old(self).spec_threads()[i],
            final(self).spec_threads()[t as int].spec_addr_space() == old(self).spec_threads()[t as int].spec_addr_space(),
            final(self).spec_threads()[t as int].spec_stack() == old(self).spec_threads()[t as int].spec_stack(),
            final(self).spec_owners() == old(self).spec_owners(),
            final(self).spec_cpu() == old(self).spec_cpu(),
    {
        self.threads[t].state = state;
        proof {
            lemma_threads_wf(old(self).threads@, self.threads@[t as int], t as int);
            assert(self.threads@ =~= old(self).threads@.update(t as int, self.threads@[t as int]));
        }
    }

    /// Handles a fault on page `vpn` of the low address space of thread `t`.
    pub fn fault_in_thread(&mut self, t: usize, pmm: &mut PhysManager, mem: &mut PageTableMemory, vpn: VirtPageNum, access_type: AccessType) -> (r: Result<()>)
        requires
            old(self).wf(),
            old(pmm).wf(),
            t < old(self).spec_threads().len(),
        ensures
            final(self).wf(),
            final(pmm).wf(),
            final(self).spec_cpu() == old(self).spec_cpu(),
            final(self).spec_owners() == old(self).spec_owners(),
            final(self).spec_threads().len() == old(self).spec_threads().len(),
            old(self).spec_threads()[t as int].spec_addr_space() is None ==> r == Err::<(), Error>(Error::BadAddress),
            old(self).spec_threads()[t as int].spec_addr_space() matches Some(a) ==> (a.fault_error(vpn, access_type)
                matches Some(e) ==> r == Err::<(), Error>(e)),
            old(self).spec_threads()[t as int].spec_addr_space() matches Some(a) ==> (
                final(self).spec_threads()[t as int].spec_addr_space() matches Some(b) && fault_outcome(
                a,
                b,
                *old(pmm),
                *final(pmm),
                *old(mem),
                *final(mem),
                vpn,
                access_type,
                r,
            )),
    {
        let r = self.threads[t].fault(pmm, mem, vpn, access_type);
        proof {
            lemma_threads_wf(old(self).threads@, self.threads@[t as int], t as int);
            assert(self.threads@ =~= old(self).threads@.update(t as int, self.threads@[t as int]));
        }
        r
    }
}

/// The position of the first occurrence of `t` in `owners`, which holds it.
fn find_owner(owners: &Vec<usize>, t: usize) -> (r: usize)
    requires
        owners@.contains(t),
    ensures
        r < owners@.len(),
        r as int == owners@.index_of_first(t).unwrap(),
{
    let mut k: usize = 0;
    while k < owners.len()
        invariant
            k <= owners@.len(),
            owners@.contains(t),
            forall|j: int| 0 <= j < k ==> owners@[j] != t,
        decreases owners@.len() - k,
    {
        if owners[k] == t {
            proof {
                owners@.index_of_first_ensures(t);
            }
            return k;
        }
        k = k + 1;
    }
    proof {
        let j = choose|j: int| 0 <= j < owners@.len() && owners@[j] == t;
    }
    0
}

/// A thread spawned behind `queue` runs once every thread queued before it has been taken, in
/// the order they were queued.
pub proof fn law_run_queue_fifo(queue: Seq<usize>, t: usize)
    ensures
        queue.push(t).skip(queue.len() as int) == seq![t],
        forall|i: int| 0 <= i < queue.len() ==> queue.push(t)[i] == queue[i],
{
    assert(queue.push(t).skip(queue.len() as int) =~= seq![t]);
}

/// A hand-off that begins with `new_thread` completes with `new_thread` as the current thread,
/// and no hand-off left in progress.
pub proof fn law_handoff_makes_current(s0: Scheduler, s1: Scheduler, s2: Scheduler, new_thread: usize, to_free: Option<usize>)
    requires
        s1.spec_cpu().spec_handoff() == Some(HandoffState { new_thread, thread_to_free: to_free }),
        s2.spec_cpu().spec_current() == Some(s1.spec_cpu().spec_handoff().unwrap().new_thread),
        s2.spec_cpu().spec_handoff() is None,
    ensures
        s2.spec_cpu().spec_current() == Some(new_thread),
{
}

} // verus!
