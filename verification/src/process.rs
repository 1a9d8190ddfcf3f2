//! Process control blocks and the process arena.
//!
//! A process owns its address space, its threads, its synchronization
//! objects (with the deadlock detector's bookkeeping) and its links in
//! the process tree.  The kernel is an arena of processes indexed by
//! pid: a reaped process leaves a permanent empty slot, so pids are
//! never reused.

use crate::mem::{space_wf, AddressSpace};
use crate::sync::{class_wf, SyncClass};
use crate::task::{tcb_wf, TaskControlBlock, TaskStatus};
use vstd::prelude::*;

verus! {

/// Largest pid the model accepts, so a pid is always representable as a
/// non-negative `isize`.
pub const PID_LIMIT: usize = 0x7FFF_FFFF;

/// One thread parked on a condition variable, remembering the mutex it
/// released and must take back when signalled.
#[derive(Clone, Copy, PartialEq, Eq, Structural)]
pub struct CondWaiter {
    pub tid: usize,
    pub mutex_id: usize,
}

/// A condition variable: the queue of parked threads.
pub struct CondvarObj {
    pub queue: Vec<CondWaiter>,
}

/// A process control block.
pub struct Process {
    /// Index of this process in the kernel arena.
    pub pid: usize,
    /// Parent pid; the root process has none.
    pub parent: Option<usize>,
    /// Pids of the live (or zombie, unreaped) children, in creation order.
    pub children: Vec<usize>,
    /// Exit code, meaningful once `zombie` is set.
    pub exit_code: i32,
    /// Set when the process has exited and awaits reaping.
    pub zombie: bool,
    /// The owned address space.
    pub space: AddressSpace,
    /// Scheduling priority; unset by default, at least 2 once set.
    pub priority: Option<usize>,
    /// Whether the deadlock detector guards blocking acquisitions.
    pub deadlock_detect: bool,
    /// Thread slots; an exited thread leaves an empty slot.
    pub threads: Vec<Option<TaskControlBlock>>,
    /// The mutex resource class.
    pub mutex_cls: SyncClass,
    /// The semaphore resource class.
    pub sem_cls: SyncClass,
    /// Condition variable slots.
    pub condvars: Vec<Option<CondvarObj>>,
}

/// Thread `tid` of `p` exists and is the one currently running.
pub open spec fn thread_running(p: Process, tid: int) -> bool {
    &&& 0 <= tid < p.threads@.len()
    &&& p.threads@[tid] is Some
    &&& p.threads@[tid].unwrap().task_status == TaskStatus::Running
}

/// A unit of need belongs to an existing, blocked thread.
pub open spec fn need_blocked(sc: SyncClass, threads: Seq<Option<TaskControlBlock>>) -> bool {
    forall|t: int, r: int|
        0 <= t < threads.len() && 0 <= r < sc.slots@.len() && (#[trigger] sc.need.deep_view()[t][r])
            >= 1 ==> threads[t] is Some && threads[t].unwrap().task_status == TaskStatus::Blocked
}

/// No thread has more than one outstanding request within the class.
pub open spec fn need_single_in(sc: SyncClass, n_threads: int) -> bool {
    forall|t: int, r1: int, r2: int|
        0 <= t < n_threads && 0 <= r1 < sc.slots@.len() && 0 <= r2 < sc.slots@.len() && r1 != r2
            ==> (#[trigger] sc.need.deep_view()[t][r1]) == 0 || (#[trigger] sc.need.deep_view()[t][r2])
            == 0
}

/// No thread waits in both classes at once.
pub open spec fn need_single_across(p: Process) -> bool {
    forall|t: int, r1: int, r2: int|
        0 <= t < p.threads@.len() && 0 <= r1 < p.mutex_cls.slots@.len() && 0 <= r2
            < p.sem_cls.slots@.len() ==> (#[trigger] p.mutex_cls.need.deep_view()[t][r1]) == 0 || (
        #[trigger] p.sem_cls.need.deep_view()[t][r2]) == 0
}

/// A condition-variable entry is a blocked, existing thread remembering
/// an existing mutex.
pub open spec fn cv_entries_wf(p: Process) -> bool {
    forall|c: int, k: int|
        0 <= c < p.condvars@.len() && p.condvars@[c] is Some && 0 <= k
            < p.condvars@[c].unwrap().queue@.len() ==> {
            let e = (#[trigger] p.condvars@[c].unwrap().queue@[k]);
            &&& e.tid < p.threads@.len()
            &&& p.threads@[e.tid as int] is Some
            &&& p.threads@[e.tid as int].unwrap().task_status == TaskStatus::Blocked
            &&& e.mutex_id < p.mutex_cls.slots@.len()
            &&& p.mutex_cls.slots@[e.mutex_id as int] is Some
        }
}

/// A thread parked on a condition variable holds no pending request in
/// either resource class (it released its mutex on entry).
pub open spec fn cv_entries_no_need(p: Process) -> bool {
    &&& forall|c: int, k: int, r: int|
        0 <= c < p.condvars@.len() && p.condvars@[c] is Some && 0 <= k
            < p.condvars@[c].unwrap().queue@.len() && 0 <= r < p.mutex_cls.slots@.len()
            ==> #[trigger] p.mutex_cls.need.deep_view()[p.condvars@[c].unwrap().queue@[k].tid as int][r]
            == 0
    &&& forall|c: int, k: int, r: int|
        0 <= c < p.condvars@.len() && p.condvars@[c] is Some && 0 <= k
            < p.condvars@[c].unwrap().queue@.len() && 0 <= r < p.sem_cls.slots@.len()
            ==> #[trigger] p.sem_cls.need.deep_view()[p.condvars@[c].unwrap().queue@[k].tid as int][r]
            == 0
}

/// No thread is parked on two condition-variable entries at once.
pub open spec fn cv_entries_distinct(p: Process) -> bool {
    forall|c1: int, k1: int, c2: int, k2: int|
        0 <= c1 < p.condvars@.len() && p.condvars@[c1] is Some && 0 <= k1
            < p.condvars@[c1].unwrap().queue@.len() && 0 <= c2 < p.condvars@.len()
            && p.condvars@[c2] is Some && 0 <= k2 < p.condvars@[c2].unwrap().queue@.len() && (c1
            != c2 || k1 != k2) ==> (#[trigger] p.condvars@[c1].unwrap().queue@[k1]).tid != (
        #[trigger] p.condvars@[c2].unwrap().queue@[k2]).tid
}

/// The process invariant.
pub open spec fn proc_wf(p: Process) -> bool {
    let n = p.threads@.len() as int;
    &&& p.pid <= PID_LIMIT
    &&& space_wf(p.space)
    &&& (p.priority matches Some(v) ==> v >= 2)
    &&& forall|t: int| 0 <= t < n && p.threads@[t] is Some ==> tcb_wf(
        (#[trigger] p.threads@[t]).unwrap(),
    )
    &&& class_wf(p.mutex_cls, n)
    &&& class_wf(p.sem_cls, n)
    &&& need_blocked(p.mutex_cls, p.threads@)
    &&& need_blocked(p.sem_cls, p.threads@)
    &&& need_single_in(p.mutex_cls, n)
    &&& need_single_in(p.sem_cls, n)
    &&& need_single_across(p)
    &&& cv_entries_wf(p)
    &&& cv_entries_no_need(p)
    &&& cv_entries_distinct(p)
}

impl Process {
    /// A fresh process: the given pid, parent and address space, one
    /// ready main thread, no synchronization objects, detection off.
    pub fn make(pid: usize, parent: Option<usize>, space: AddressSpace) -> (r: Process)
        requires
            pid <= PID_LIMIT,
            space_wf(space),
        ensures
            proc_wf(r),
            r.pid == pid,
            r.parent == parent,
            r.children@.len() == 0,
            r.exit_code == 0,
            !r.zombie,
            r.space == space,
            r.priority is None,
            !r.deadlock_detect,
            r.threads@.len() == 1,
            r.threads@[0] is Some,
            r.threads@[0].unwrap().task_status == TaskStatus::Ready,
            r.threads@[0].unwrap().task_cx.syscall_ret == 0,
            r.mutex_cls.slots@.len() == 0,
            r.sem_cls.slots@.len() == 0,
            r.condvars@.len() == 0,
    {
        let mut threads: Vec<Option<TaskControlBlock>> = Vec::new();
        threads.push(Some(TaskControlBlock::new_ready()));
        let r = Process {
            pid,
            parent,
            children: Vec::new(),
            exit_code: 0,
            zombie: false,
            space,
            priority: None,
            deadlock_detect: false,
            threads,
            mutex_cls: SyncClass::empty(1),
            sem_cls: SyncClass::empty(1),
            condvars: Vec::new(),
        };
        r
    }

    /// Create a new thread in the process: a fresh ready TCB in a new
    /// slot, with zeroed rows in both resource classes.  Returns the
    /// new thread id.
    pub fn spawn_thread(&mut self) -> (tid: usize)
        requires
            proc_wf(*old(self)),
        ensures
            proc_wf(*final(self)),
            tid == old(self).threads@.len(),
            final(self).threads@.len() == old(self).threads@.len() + 1,
            final(self).threads@[tid as int] is Some,
            final(self).threads@[tid as int].unwrap().task_status == TaskStatus::Ready,
            forall|t: int| 0 <= t < tid ==> final(self).threads@[t] == old(self).threads@[t],
            final(self).pid == old(self).pid,
            final(self).parent == old(self).parent,
            final(self).children@ == old(self).children@,
            final(self).zombie == old(self).zombie,
            final(self).exit_code == old(self).exit_code,
            final(self).space == old(self).space,
            final(self).priority == old(self).priority,
            final(self).deadlock_detect == old(self).deadlock_detect,
            final(self).condvars@ == old(self).condvars@,
            final(self).mutex_cls.slots@ == old(self).mutex_cls.slots@,
            final(self).sem_cls.slots@ == old(self).sem_cls.slots@,
    {
        let tid = self.threads.len();
        self.threads.push(Some(TaskControlBlock::new_ready()));
        self.mutex_cls.add_thread_row();
        self.sem_cls.add_thread_row();
        proof {
            let n = old(self).threads@.len() as int;
            let p = *self;
            assert forall|t: int, r: int|
                0 <= t < p.threads@.len() && 0 <= r < p.mutex_cls.slots@.len() && (
                #[trigger] p.mutex_cls.need.deep_view()[t][r]) >= 1 implies p.threads@[t] is Some
                && p.threads@[t].unwrap().task_status == TaskStatus::Blocked by {
                if t < n {
                    assert(old(self).mutex_cls.need.deep_view()[t][r] >= 1);
                } else {
                    assert(p.mutex_cls.need.deep_view()[t][r] == 0);
                }
            }
            assert forall|t: int, r: int|
                0 <= t < p.threads@.len() && 0 <= r < p.sem_cls.slots@.len() && (
                #[trigger] p.sem_cls.need.deep_view()[t][r]) >= 1 implies p.threads@[t] is Some
                && p.threads@[t].unwrap().task_status == TaskStatus::Blocked by {
                if t < n {
                    assert(old(self).sem_cls.need.deep_view()[t][r] >= 1);
                } else {
                    assert(p.sem_cls.need.deep_view()[t][r] == 0);
                }
            }
            assert forall|t: int, r1: int, r2: int|
                0 <= t < p.threads@.len() && 0 <= r1 < p.mutex_cls.slots@.len() && 0 <= r2
                    < p.mutex_cls.slots@.len() && r1 != r2 implies (
            #[trigger] p.mutex_cls.need.deep_view()[t][r1]) == 0 || (
            #[trigger] p.mutex_cls.need.deep_view()[t][r2]) == 0 by {
                if t >= n {
                    assert(p.mutex_cls.need.deep_view()[t][r1] == 0);
                }
            }
            assert forall|t: int, r1: int, r2: int|
                0 <= t < p.threads@.len() && 0 <= r1 < p.sem_cls.slots@.len() && 0 <= r2
                    < p.sem_cls.slots@.len() && r1 != r2 implies (
            #[trigger] p.sem_cls.need.deep_view()[t][r1]) == 0 || (
            #[trigger] p.sem_cls.need.deep_view()[t][r2]) == 0 by {
                if t >= n {
                    assert(p.sem_cls.need.deep_view()[t][r1] == 0);
                }
            }
            assert forall|t: int, r1: int, r2: int|
                0 <= t < p.threads@.len() && 0 <= r1 < p.mutex_cls.slots@.len() && 0 <= r2
                    < p.sem_cls.slots@.len() implies (
            #[trigger] p.mutex_cls.need.deep_view()[t][r1]) == 0 || (
            #[trigger] p.sem_cls.need.deep_view()[t][r2]) == 0 by {
                if t >= n {
                    assert(p.mutex_cls.need.deep_view()[t][r1] == 0);
                }
            }
            assert forall|c: int, k: int, r: int|
                0 <= c < p.condvars@.len() && p.condvars@[c] is Some && 0 <= k
                    < p.condvars@[c].unwrap().queue@.len() && 0 <= r
                    < p.mutex_cls.slots@.len() implies #[trigger] p.mutex_cls.need.deep_view()[p.condvars@[c].unwrap().queue@[k].tid as int][r]
                == 0 by {
                let e = p.condvars@[c].unwrap().queue@[k];
                assert(old(self).condvars@[c].unwrap().queue@[k] == e);
                assert(e.tid < n);
                assert(old(self).mutex_cls.need.deep_view()[e.tid as int][r] == 0);
            }
            assert forall|c: int, k: int, r: int|
                0 <= c < p.condvars@.len() && p.condvars@[c] is Some && 0 <= k
                    < p.condvars@[c].unwrap().queue@.len() && 0 <= r
                    < p.sem_cls.slots@.len() implies #[trigger] p.sem_cls.need.deep_view()[p.condvars@[c].unwrap().queue@[k].tid as int][r]
                == 0 by {
                let e = p.condvars@[c].unwrap().queue@[k];
                assert(old(self).condvars@[c].unwrap().queue@[k] == e);
                assert(e.tid < n);
                assert(old(self).sem_cls.need.deep_view()[e.tid as int][r] == 0);
            }
            assert(proc_wf(p));
        }
        tid
    }

    /// The external scheduler dispatches a ready thread: it becomes the
    /// running one.
    pub fn schedule_thread(&mut self, tid: usize)
        requires
            proc_wf(*old(self)),
            tid < old(self).threads@.len(),
            old(self).threads@[tid as int] is Some,
            old(self).threads@[tid as int].unwrap().task_status == TaskStatus::Ready,
        ensures
            proc_wf(*final(self)),
            thread_running(*final(self), tid as int),
            final(self).threads@ == old(self).threads@.update(
                tid as int,
                Some(
                    (TaskControlBlock {
                        task_status: TaskStatus::Running,
                        ..old(self).threads@[tid as int].unwrap()
                    }),
                ),
            ),
            *final(self) == (Process { threads: final(self).threads, ..*old(self) }),
    {
        match &mut self.threads[tid] {
            Some(tc) => {
                tc.task_status = TaskStatus::Running;
            },
            None => {},
        }
        proof {
            let p = *self;
            assert(p.threads@ =~= old(self).threads@.update(
                tid as int,
                Some(
                    (TaskControlBlock {
                        task_status: TaskStatus::Running,
                        ..old(self).threads@[tid as int].unwrap()
                    }),
                ),
            ));
            assert forall|t: int, r: int|
                0 <= t < p.threads@.len() && 0 <= r < p.mutex_cls.slots@.len() && (
                #[trigger] p.mutex_cls.need.deep_view()[t][r]) >= 1 implies p.threads@[t] is Some
                && p.threads@[t].unwrap().task_status == TaskStatus::Blocked by {
                assert(t != tid);
            }
            assert forall|t: int, r: int|
                0 <= t < p.threads@.len() && 0 <= r < p.sem_cls.slots@.len() && (
                #[trigger] p.sem_cls.need.deep_view()[t][r]) >= 1 implies p.threads@[t] is Some
                && p.threads@[t].unwrap().task_status == TaskStatus::Blocked by {
                assert(t != tid);
            }
            assert forall|c: int, k: int|
                0 <= c < p.condvars@.len() && p.condvars@[c] is Some && 0 <= k
                    < p.condvars@[c].unwrap().queue@.len() implies {
                let e = (#[trigger] p.condvars@[c].unwrap().queue@[k]);
                &&& e.tid < p.threads@.len()
                &&& p.threads@[e.tid as int] is Some
                &&& p.threads@[e.tid as int].unwrap().task_status == TaskStatus::Blocked
                &&& e.mutex_id < p.mutex_cls.slots@.len()
                &&& p.mutex_cls.slots@[e.mutex_id as int] is Some
            } by {
                let e = p.condvars@[c].unwrap().queue@[k];
                assert(old(self).condvars@[c].unwrap().queue@[k] == e);
                assert(e.tid != tid);
            }
            assert(proc_wf(p));
        }
    }
}

/// The kernel: the arena of processes, indexed by pid.
pub struct Kernel {
    pub procs: Vec<Option<Process>>,
}

/// The kernel invariant: every live process is well formed, sits at the
/// slot its pid names, and its children list holds distinct live
/// processes whose parent link points back at it.
pub open spec fn kernel_wf(k: Kernel) -> bool {
    &&& k.procs@.len() <= PID_LIMIT
    &&& forall|i: int|
        0 <= i < k.procs@.len() && k.procs@[i] is Some ==> proc_wf(
            (#[trigger] k.procs@[i]).unwrap(),
        ) && k.procs@[i].unwrap().pid == i
    &&& forall|i: int, j: int|
        0 <= i < k.procs@.len() && k.procs@[i] is Some && 0 <= j
            < k.procs@[i].unwrap().children@.len() ==> {
            let c = (#[trigger] k.procs@[i].unwrap().children@[j]) as int;
            &&& 0 <= c < k.procs@.len()
            &&& c != i
            &&& k.procs@[c] is Some
            &&& k.procs@[c].unwrap().parent == Some(i as usize)
        }
    &&& forall|i: int, j1: int, j2: int|
        0 <= i < k.procs@.len() && k.procs@[i] is Some && 0 <= j1
            < k.procs@[i].unwrap().children@.len() && 0 <= j2
            < k.procs@[i].unwrap().children@.len() && j1 != j2 ==> (
        #[trigger] k.procs@[i].unwrap().children@[j1]) != (
        #[trigger] k.procs@[i].unwrap().children@[j2])
}

impl Kernel {
    /// Boot: a kernel holding only the root process, built around the
    /// given address space.
    pub fn boot(root_space: AddressSpace) -> (r: Kernel)
        requires
            space_wf(root_space),
        ensures
            kernel_wf(r),
            r.procs@.len() == 1,
            r.procs@[0] is Some,
            r.procs@[0].unwrap().pid == 0,
            r.procs@[0].unwrap().parent is None,
            proc_wf(r.procs@[0].unwrap()),
            r.procs@[0].unwrap().threads@.len() == 1,
            r.procs@[0].unwrap().threads@[0] is Some,
    {
        let root = Process::make(0, None, root_space);
        let mut procs: Vec<Option<Process>> = Vec::new();
        procs.push(Some(root));
        Kernel { procs }
    }
}

} // verus!
