//! Cooperative round-robin scheduling.
//!
//! One task at a time is CURRENT, held exclusively while it runs; every
//! other scheduled task sits in the FIFO ready queue exactly once.  Task
//! handles are moved between the two, never copied, so the single-owner
//! discipline is the type system's.
//!
//! The low-level context switch is split along the boundary spec for it:
//! this module decides what the switch routine must do — whose kernel
//! stack to publish, which address space to activate, and whether to
//! consume a synthesized first-dispatch frame or resume saved kernel
//! state — and returns that as a [`Resume`] value for the architecture
//! glue to perform.

use vstd::prelude::*;

use crate::address_space::as_core_wf;
use crate::isr::{InterruptStackFrame, INTERRUPT_FRAME_SIZE};
use crate::task::{Task, TaskModel, TaskState, KERNEL_STACK_SIZE};

verus! {

/// The per-processor fields the switch publishes: the privilege-0 stack
/// pointer in the task-state segment, the fast-syscall trampoline's
/// kernel-stack pointer, and the page-table root.
pub struct CpuState {
    pub tss_rsp0: u64,
    pub syscall_kernel_stack: u64,
    pub page_table_root: u64,
}

/// What the low-level switch does after the bookkeeping: enter user mode
/// by consuming the synthesized trap frame (a first dispatch), or restore
/// saved callee state at the persisted kernel stack pointer.
#[derive(Clone, Copy, PartialEq, Eq, Structural)]
pub enum Resume {
    EnterUser(InterruptStackFrame),
    ResumeKernel(u64),
}

/// Abstract scheduler state.
#[verifier::ext_equal]
pub ghost struct SchedulerModel {
    pub current: Option<TaskModel>,
    pub ready: Seq<TaskModel>,
}

/// The scheduler: the running task and the FIFO ready queue.
pub struct Scheduler {
    current: Option<Task>,
    ready: Vec<Task>,
}

impl View for Scheduler {
    type V = SchedulerModel;

    closed spec fn view(&self) -> SchedulerModel {
        SchedulerModel {
            current: match self.current {
                Some(ref t) => Some(t@),
                None => None,
            },
            ready: Seq::new(self.ready@.len(), |i: int| self.ready@[i]@),
        }
    }
}

/// A task the switch may target: not terminated, a first-dispatch frame in
/// place when it has never run, and sane stack bounds.
pub open spec fn task_dispatchable(t: TaskModel) -> bool {
    &&& t.state != TaskState::Terminated
    &&& t.state == TaskState::New ==> t.kernel_stack.frame.is_some()
        && t.kernel_stack.krsp + INTERRUPT_FRAME_SIZE <= u64::MAX
    &&& t.kernel_stack.ptr + KERNEL_STACK_SIZE <= u64::MAX
    &&& as_core_wf(t.addr_space)
}

/// Every task the scheduler tracks is dispatchable.
pub open spec fn sched_wf(s: SchedulerModel) -> bool {
    &&& s.current.is_some() ==> task_dispatchable(s.current.unwrap())
    &&& forall|i: int| 0 <= i < s.ready.len() ==> task_dispatchable(#[trigger] s.ready[i])
}

/// The dispatched form of a task and what the switch does with it: a task
/// that never ran has its frame consumed and becomes Ready; any other
/// resumes its saved kernel state.
pub open spec fn spec_dispatch(t: TaskModel) -> (TaskModel, Resume) {
    if t.state == TaskState::New {
        (
            TaskModel {
                state: TaskState::Ready,
                kernel_stack: crate::task::KernelStackModel {
                    krsp: (t.kernel_stack.krsp + INTERRUPT_FRAME_SIZE) as u64,
                    frame: None,
                    ..t.kernel_stack
                },
                ..t
            },
            Resume::EnterUser(t.kernel_stack.frame.unwrap()),
        )
    } else {
        (t, Resume::ResumeKernel(t.kernel_stack.krsp))
    }
}

/// The switch step on the abstract state: the target becomes CURRENT and
/// the prior CURRENT, if any, goes to the back of the ready queue.
pub open spec fn spec_switch(s: SchedulerModel, t: TaskModel) -> (SchedulerModel, Resume) {
    let (t1, r) = spec_dispatch(t);
    (
        SchedulerModel {
            current: Some(t1),
            ready: match s.current {
                Some(c) => s.ready.push(c),
                None => s.ready,
            },
        },
        r,
    )
}

/// The yield step: with an empty ready queue the current task continues;
/// otherwise the queue's front is switched to.
pub open spec fn spec_yield(s: SchedulerModel) -> (SchedulerModel, Option<Resume>) {
    if s.ready.len() == 0 {
        (s, None)
    } else {
        let t = s.ready[0];
        let (s1, r) = spec_switch(
            SchedulerModel { current: s.current, ready: s.ready.drop_first() },
            t,
        );
        (s1, Some(r))
    }
}

impl Scheduler {
    /// An empty scheduler: nothing running, nothing ready.
    pub fn new() -> (r: Scheduler)
        ensures
            r@.current.is_none(),
            r@.ready == Seq::<TaskModel>::empty(),
            sched_wf(r@),
    {
        let r = Scheduler { current: None, ready: Vec::new() };
        proof {
            assert(r@.ready =~= Seq::<TaskModel>::empty());
        }
        r
    }

    /// Add a new task to the scheduler; it joins the back of the ready
    /// queue.  Call once per task.
    pub fn add_new_task(&mut self, task: Task)
        requires
            sched_wf(old(self)@),
            task_dispatchable(task@),
        ensures
            sched_wf(final(self)@),
            final(self)@.current == old(self)@.current,
            final(self)@.ready == old(self)@.ready.push(task@),
    {
        let ghost s0 = self@;
        self.ready.push(task);
        proof {
            assert(self@.ready =~= s0.ready.push(task@));
            assert forall|i: int| 0 <= i < self@.ready.len() implies task_dispatchable(
                #[trigger] self@.ready[i],
            ) by {
                if i < s0.ready.len() {
                    assert(self@.ready[i] == s0.ready[i]);
                }
            }
        }
    }

    /// Switch to the given task: it is installed as CURRENT, the prior
    /// CURRENT (if any) joins the back of the ready queue, and the
    /// low-level switch's work order is returned — the CPU fields are set
    /// to the target's kernel-stack top and page-table root, and a
    /// never-run task has its synthesized frame consumed, entering user
    /// mode, having just become Ready.
    pub fn switch_task(&mut self, new_task: Task, cpu: &mut CpuState) -> (r: Resume)
        requires
            sched_wf(old(self)@),
            task_dispatchable(new_task@),
        ensures
            sched_wf(final(self)@),
            (final(self)@, r) == spec_switch(old(self)@, new_task@),
            final(cpu).tss_rsp0 == new_task@.kernel_stack.ptr + KERNEL_STACK_SIZE,
            final(cpu).syscall_kernel_stack == new_task@.kernel_stack.ptr + KERNEL_STACK_SIZE,
            final(cpu).page_table_root == new_task@.addr_space.table_addrs[0],
    {
        let ghost s0 = self@;
        // publish the target's kernel stack and address space
        let top = new_task.kernel_stack.top();
        cpu.tss_rsp0 = top;
        cpu.syscall_kernel_stack = top;
        let mut root: u64 = 0;
        new_task.addr_space.switch_to_this(&mut root);
        cpu.page_table_root = root;
        // move the prior task to the back of the ready queue
        let old_task = self.current.take();
        match old_task {
            Some(t) => {
                let ghost prev = self@;
                self.ready.push(t);
                proof {
                    assert(self@.ready =~= s0.ready.push(t@));
                }
            },
            None => {},
        }
        // install and dispatch the target
        let mut task = new_task;
        let resume: Resume;
        if task.state == TaskState::New {
            proof {
                assert(new_task@.state == TaskState::New);
            }
            let frame = task.kernel_stack.pop();
            task.state = TaskState::Ready;
            resume = Resume::EnterUser(frame);
            proof {
                assert(frame == new_task@.kernel_stack.frame.unwrap());
                assert(resume == Resume::EnterUser(new_task@.kernel_stack.frame.unwrap()));
            }
        } else {
            proof {
                assert(new_task@.state != TaskState::New);
            }
            resume = Resume::ResumeKernel(task.kernel_stack.saved_rsp());
            proof {
                assert(resume == Resume::ResumeKernel(new_task@.kernel_stack.krsp));
            }
        }
        self.current = Some(task);
        proof {
            assert(self@.current == Some(spec_dispatch(new_task@).0));
            assert(self@.ready =~= spec_switch(s0, new_task@).0.ready);
            assert(self@ =~~= spec_switch(s0, new_task@).0);
            assert(resume == spec_dispatch(new_task@).1);
            assert(resume == spec_switch(s0, new_task@).1);
            assert forall|i: int| 0 <= i < self@.ready.len() implies task_dispatchable(
                #[trigger] self@.ready[i],
            ) by {
                if i < s0.ready.len() {
                    assert(self@.ready[i] == s0.ready[i]);
                }
            }
        }
        resume
    }

    /// Yield the current task: if any task is ready, the front of the
    /// queue is switched to and the work order returned; with an empty
    /// queue the current task simply continues.
    pub fn yield_task(&mut self, cpu: &mut CpuState) -> (r: Option<Resume>)
        requires
            sched_wf(old(self)@),
            old(self)@.current.is_some(),
        ensures
            sched_wf(final(self)@),
            (final(self)@, r) == spec_yield(old(self)@),
            r.is_none() ==> old(self)@.ready.len() == 0 && *final(cpu) == *old(cpu),
    {
        let ghost s0 = self@;
        if self.ready.len() == 0 {
            return None;
        }
        let next = self.ready.remove(0);
        proof {
            assert(next@ == s0.ready[0]);
            assert(self@.ready =~= s0.ready.drop_first());
            assert(self@.current == s0.current);
            assert forall|i: int| 0 <= i < self@.ready.len() implies task_dispatchable(
                #[trigger] self@.ready[i],
            ) by {
                assert(self@.ready[i] == s0.ready[i + 1]);
            }
        }
        let r = self.switch_task(next, cpu);
        proof {
            assert(self@ =~~= spec_yield(s0).0);
        }
        Some(r)
    }

    /// The first dispatch ever: take one task from the ready queue and
    /// switch to it, with no prior task to save.
    pub fn begin_scheduler(&mut self, cpu: &mut CpuState) -> (r: Resume)
        requires
            sched_wf(old(self)@),
            old(self)@.current.is_none(),
            old(self)@.ready.len() > 0,
        ensures
            sched_wf(final(self)@),
            (final(self)@, r) == spec_switch(
                SchedulerModel {
                    current: old(self)@.current,
                    ready: old(self)@.ready.drop_first(),
                },
                old(self)@.ready[0],
            ),
            final(self)@.current == Some(spec_dispatch(old(self)@.ready[0]).0),
            final(self)@.ready == old(self)@.ready.drop_first(),
    {
        let ghost s0 = self@;
        let next = self.ready.remove(0);
        proof {
            assert(next@ == s0.ready[0]);
            assert(self@.ready =~= s0.ready.drop_first());
            assert forall|i: int| 0 <= i < self@.ready.len() implies task_dispatchable(
                #[trigger] self@.ready[i],
            ) by {
                assert(self@.ready[i] == s0.ready[i + 1]);
            }
        }
        let r = self.switch_task(next, cpu);
        r
    }

    /// Whether a task is currently installed.
    pub fn has_current(&self) -> (r: bool)
        ensures
            r == self@.current.is_some(),
    {
        self.current.is_some()
    }

    /// How many tasks wait in the ready queue.
    pub fn ready_count(&self) -> (r: usize)
        ensures
            r == self@.ready.len(),
    {
        self.ready.len()
    }
}

// ---- laws ----

/// Round-robin rotation: a yield moves the queue's front to CURRENT (made
/// Ready if it never ran) and appends the prior CURRENT at the back, so
/// with tasks A then B ready, dispatch visits A, B, A, B, ... forever.
/// Every task the scheduler knows keeps exactly one owner: the multiset
/// holding CURRENT and the ready tasks is preserved up to the one
/// dispatched task's first-run state change.
pub proof fn lemma_yield_rotates(s: SchedulerModel)
    requires
        sched_wf(s),
        s.current.is_some(),
        s.ready.len() > 0,
    ensures
        ({
            let (s1, r) = spec_yield(s);
            &&& s1.current == Some(spec_dispatch(s.ready[0]).0)
            &&& s1.ready == s.ready.drop_first().push(s.current.unwrap())
            &&& r.is_some()
        }),
{
    let (s1, r) = spec_yield(s);
    assert(s1.ready =~= s.ready.drop_first().push(s.current.unwrap()));
}

/// Two tasks, both past their first run: two yields bring the scheduler
/// back to the exact starting state, so repeated yields cycle A, B, A, B
/// indefinitely.
pub proof fn lemma_two_task_cycle(s: SchedulerModel)
    requires
        sched_wf(s),
        s.current.is_some(),
        s.current.unwrap().state == TaskState::Ready,
        s.ready.len() == 1,
        s.ready[0].state == TaskState::Ready,
    ensures
        spec_yield(spec_yield(s).0).0 == s,
        spec_yield(s).0.current == Some(s.ready[0]),
        spec_yield(spec_yield(s).0).0.current == s.current,
{
    let s1 = spec_yield(s).0;
    assert(s1.ready =~= seq![s.current.unwrap()]);
    let s2 = spec_yield(s1).0;
    assert(s2.ready =~= s.ready);
    assert(s2 =~~= s);
}

/// Ownership is single and total: after any yield, the dispatched task is
/// CURRENT and every other tracked task appears in READY exactly once —
/// the bag of tasks is preserved, with only the dispatched one updated.
pub proof fn lemma_yield_preserves_tasks(s: SchedulerModel)
    requires
        sched_wf(s),
        s.current.is_some(),
        s.ready.len() > 0,
    ensures
        ({
            let (s1, r) = spec_yield(s);
            seq![s1.current.unwrap()].add(s1.ready).to_multiset()
                =~= seq![spec_dispatch(s.ready[0]).0].add(
                s.ready.drop_first().push(s.current.unwrap()),
            ).to_multiset()
        }),
{
    let (s1, r) = spec_yield(s);
    lemma_yield_rotates(s);
    assert(seq![s1.current.unwrap()].add(s1.ready) =~= seq![spec_dispatch(s.ready[0]).0].add(
        s.ready.drop_first().push(s.current.unwrap()),
    ));
}

/// A first dispatch resumes exactly at the task's synthesized frame: in
/// user mode, at the recorded entry instruction pointer, with the stack
/// pointer at the top of the mapped user stack.
pub proof fn lemma_first_dispatch(s: SchedulerModel, t: TaskModel, entry: u64)
    requires
        t.state == TaskState::New,
        t.kernel_stack.frame == Some(crate::task::initial_frame(entry)),
    ensures
        spec_switch(s, t).1 == Resume::EnterUser(crate::task::initial_frame(entry)),
        ({
            let f = crate::task::initial_frame(entry);
            &&& f.ip == entry
            &&& f.cs == crate::gdt::USER_CODE_SELECTOR as u64
            &&& f.cs & 3 == 3
            &&& f.sp == crate::task::USER_STACK_VADDR + crate::task::USER_STACK_SIZE
            &&& f.flags == 0x202
        }),
        spec_switch(s, t).0.current == Some(spec_dispatch(t).0),
        spec_dispatch(t).0.state == TaskState::Ready,
{
    assert((0x23u64 & 3) == 3) by (bit_vector);
    assert((0x20u16 | 0x03u16) == 0x23u16) by (bit_vector);
}

} // verus!
