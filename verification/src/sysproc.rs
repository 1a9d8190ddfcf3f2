//! Process management syscalls.
//!
//! Per-process calls (`sys_exec`, `sys_mmap`, `sys_munmap`, `sys_sbrk`,
//! `sys_set_priority`, `sys_task_info`, `sys_getpid`) act on the calling
//! process; the calls that walk the process tree (`sys_fork`,
//! `sys_spawn`, `sys_waitpid`, `sys_exit`) act on the kernel arena with
//! the caller's pid.  Program loading is the external loader's work: an
//! `exec` or `spawn` receives the address space the loader built, or
//! `None` when the program could not be located.

use crate::mem::{
    mmap_ok, munmap_ok, sbrk_new, sbrk_ok, space_mmap, space_munmap, space_sbrk, space_wf,
    AddressSpace, MemRegion, PageEntry, PageTable,
};
use crate::process::{kernel_wf, proc_wf, Kernel, Process, PID_LIMIT};
use crate::sync::SyncClass;
use crate::task::{TaskControlBlock, TaskStatus};
use vstd::prelude::*;

verus! {

/// Wall-clock time split into whole seconds and microseconds.
#[derive(Clone, Copy, PartialEq, Eq, Structural, Debug)]
pub struct TimeVal {
    /// whole seconds
    pub sec: usize,
    /// microseconds within the second
    pub usec: usize,
}

/// Task information
pub struct TaskInfo {
    /// Task status in its life cycle
    pub status: TaskStatus,
    /// The numbers of syscalls called by the task
    pub syscall_times: Vec<u32>,
    /// Total running time of the task
    pub time: usize,
}

/// Split a microsecond count into the `TimeVal` written back to user
/// space; the raw reading itself comes from the external timer.
pub fn time_val_from_us(us: usize) -> (r: TimeVal)
    ensures
        r.sec == us / 1_000_000,
        r.usec == us % 1_000_000,
{
    TimeVal { sec: us / 1_000_000, usec: us % 1_000_000 }
}

/// Give the processor up to the scheduler.  The suspension itself is
/// the external scheduler's work; the call always reports 0.
pub fn sys_yield() -> (r: isize)
    ensures
        r == 0,
{
    0
}

/// The calling process's own pid.
pub fn sys_getpid(p: &Process) -> (r: isize)
    requires
        proc_wf(*p),
    ensures
        r == p.pid,
{
    p.pid as isize
}

/// Set the calling process's scheduling priority.  A priority below 2
/// is refused with -1 and changes nothing; otherwise the priority is
/// recorded and returned.
pub fn sys_set_priority(p: &mut Process, prio: isize) -> (r: isize)
    requires
        proc_wf(*old(p)),
    ensures
        proc_wf(*final(p)),
        (r == prio && prio >= 2) || (r == -1 && prio < 2),
        prio >= 2 ==> *final(p) == (Process { priority: Some(prio as usize), ..*old(p) }),
        prio < 2 ==> *final(p) == *old(p),
{
    if prio >= 2 {
        p.priority = Some(prio as usize);
        prio
    } else {
        -1
    }
}

/// Register a memory region in the calling process's address space.
/// Returns 0 on success and -1 when the start is unaligned, the
/// permission mask is empty or has bits outside the low 3, or the
/// range overlaps an existing region; a zero-length request succeeds
/// without effect.
pub fn sys_mmap(p: &mut Process, start: usize, len: usize, port: usize) -> (r: isize)
    requires
        proc_wf(*old(p)),
        start + len <= usize::MAX,
    ensures
        proc_wf(*final(p)),
        r == 0 || r == -1,
        (r == 0) <==> mmap_ok(old(p).space, start, len, port),
        r == -1 ==> *final(p) == *old(p),
        r == 0 && len == 0 ==> *final(p) == *old(p),
        r == 0 && len > 0 ==> final(p).space.regions@ == old(p).space.regions@.push(
            crate::mem::mmap_region(start, len, port),
        ),
        *final(p) == (Process { space: final(p).space, ..*old(p) }),
        final(p).space.heap_bottom == old(p).space.heap_bottom,
        final(p).space.brk == old(p).space.brk,
        final(p).space.page_table == old(p).space.page_table,
{
    space_mmap(&mut p.space, start, len, port)
}

/// Remove the mapping of a region from the calling process's address
/// space.  Returns 0 on success and -1 when the start is unaligned or
/// the range is not tiled exactly by whole mapped regions; a
/// zero-length request succeeds without side effects.
pub fn sys_munmap(p: &mut Process, start: usize, len: usize) -> (r: isize)
    requires
        proc_wf(*old(p)),
        start + len <= usize::MAX,
    ensures
        proc_wf(*final(p)),
        r == 0 || r == -1,
        (r == 0) <==> munmap_ok(old(p).space, start, len),
        r == -1 ==> *final(p) == *old(p),
        r == 0 && len == 0 ==> *final(p) == *old(p),
        r == 0 && len > 0 ==> final(p).space.regions@ == crate::mem::keep_outside(
            old(p).space.regions@,
            start as int,
            start + len,
        ),
        r == 0 && len > 0 ==> crate::mem::range_free(
            final(p).space.regions@,
            start as int,
            start + len,
        ),
        *final(p) == (Process { space: final(p).space, ..*old(p) }),
        final(p).space.heap_bottom == old(p).space.heap_bottom,
        final(p).space.brk == old(p).space.brk,
        final(p).space.page_table == old(p).space.page_table,
{
    space_munmap(&mut p.space, start, len)
}

/// Move the calling process's program break by `size` bytes (negative
/// shrinks).  Returns the old break on success; -1 (and no change)
/// when the break would leave its allowed range.
pub fn sys_sbrk(p: &mut Process, size: i32) -> (r: isize)
    requires
        proc_wf(*old(p)),
    ensures
        proc_wf(*final(p)),
        (r == -1) <==> !sbrk_ok(old(p).space, size as int),
        r == -1 ==> *final(p) == *old(p),
        r != -1 ==> r == old(p).space.brk && final(p).space == sbrk_new(
            old(p).space,
            size as int,
        ),
        *final(p) == (Process { space: final(p).space, ..*old(p) }),
{
    space_sbrk(&mut p.space, size)
}

/// Replace the calling process's address space with the image the
/// external loader built, keeping pid, links and resources.  `None`
/// (program not found) is refused with -1 and changes nothing.
pub fn sys_exec(p: &mut Process, image: Option<AddressSpace>) -> (r: isize)
    requires
        proc_wf(*old(p)),
        image is Some ==> space_wf(image.unwrap()),
    ensures
        proc_wf(*final(p)),
        r == 0 || r == -1,
        (r == 0) <==> image is Some,
        r == -1 ==> *final(p) == *old(p),
        r == 0 ==> *final(p) == (Process { space: image.unwrap(), ..*old(p) }),
{
    match image {
        Some(s) => {
            p.space = s;
            0
        },
        None => -1,
    }
}

/// Report the status, syscall counts and running time of the calling
/// thread.  Returns 0 and fills `ti`; an unknown thread id is refused
/// with -1 and leaves `ti` alone.
pub fn sys_task_info(p: &Process, tid: usize, ti: &mut TaskInfo) -> (r: isize)
    requires
        proc_wf(*p),
    ensures
        r == 0 || r == -1,
        (r == 0) <==> ((tid as int) < p.threads@.len() && p.threads@[tid as int] is Some),
        r == -1 ==> *final(ti) == *old(ti),
        r == 0 ==> {
            let tc = p.threads@[tid as int].unwrap();
            &&& final(ti).status == tc.task_status
            &&& final(ti).syscall_times@ == tc.syscall_times@
            &&& final(ti).time == tc.timer
        },
{
    if tid >= p.threads.len() {
        return -1;
    }
    match &p.threads[tid] {
        Some(tc) => {
            ti.status = tc.task_status;
            let mut times: Vec<u32> = Vec::new();
            let n = tc.syscall_times.len();
            let mut i: usize = 0;
            while i < n
                invariant
                    i <= n,
                    n == tc.syscall_times@.len(),
                    times@ =~= tc.syscall_times@.subrange(0, i as int),
                decreases n - i,
            {
                times.push(tc.syscall_times[i]);
                assert(times@ =~= tc.syscall_times@.subrange(0, i + 1));
                i = i + 1;
            }
            assert(times@ =~= tc.syscall_times@);
            ti.syscall_times = times;
            ti.time = tc.timer;
            0
        },
        None => -1,
    }
}

/// A fresh copy of an address space: same regions, same break, same
/// page table, independently owned.
fn clone_space(s: &AddressSpace) -> (r: AddressSpace)
    ensures
        r.regions@ == s.regions@,
        r.heap_bottom == s.heap_bottom,
        r.brk == s.brk,
        r.page_table.entries@ == s.page_table.entries@,
        space_wf(*s) ==> space_wf(r),
{
    let mut regions: Vec<MemRegion> = Vec::new();
    let n = s.regions.len();
    let mut i: usize = 0;
    while i < n
        invariant
            i <= n,
            n == s.regions@.len(),
            regions@ =~= s.regions@.subrange(0, i as int),
        decreases n - i,
    {
        regions.push(s.regions[i]);
        assert(regions@ =~= s.regions@.subrange(0, i + 1));
        i = i + 1;
    }
    assert(regions@ =~= s.regions@);
    let mut entries: Vec<PageEntry> = Vec::new();
    let m = s.page_table.entries.len();
    let mut i: usize = 0;
    while i < m
        invariant
            i <= m,
            m == s.page_table.entries@.len(),
            entries@ =~= s.page_table.entries@.subrange(0, i as int),
        decreases m - i,
    {
        entries.push(s.page_table.entries[i]);
        assert(entries@ =~= s.page_table.entries@.subrange(0, i + 1));
        i = i + 1;
    }
    assert(entries@ =~= s.page_table.entries@);
    AddressSpace {
        regions,
        heap_bottom: s.heap_bottom,
        brk: s.brk,
        page_table: PageTable { entries },
    }
}

/// Append a fresh child process built around `space` to process `pid`:
/// a new pid at the end of the arena, default flags, one ready main
/// thread whose pending syscall return value is 0.
fn add_child(k: &mut Kernel, pid: usize, space: AddressSpace) -> (r: usize)
    requires
        kernel_wf(*old(k)),
        (pid as int) < old(k).procs@.len(),
        old(k).procs@[pid as int] is Some,
        old(k).procs@.len() < PID_LIMIT,
        space_wf(space),
    ensures
        kernel_wf(*final(k)),
        r == old(k).procs@.len(),
        final(k).procs@.len() == old(k).procs@.len() + 1,
        final(k).procs@[r as int] is Some,
        ({
            let child = final(k).procs@[r as int].unwrap();
            &&& child.pid == r
            &&& child.parent == Some(pid)
            &&& child.children@.len() == 0
            &&& !child.zombie
            &&& child.space == space
            &&& child.priority is None
            &&& !child.deadlock_detect
            &&& child.threads@.len() == 1
            &&& child.threads@[0] is Some
            &&& child.threads@[0].unwrap().task_status == TaskStatus::Ready
            &&& child.threads@[0].unwrap().task_cx.syscall_ret == 0
        }),
        final(k).procs@[pid as int] is Some,
        final(k).procs@[pid as int].unwrap() == (Process {
            children: final(k).procs@[pid as int].unwrap().children,
            ..old(k).procs@[pid as int].unwrap()
        }),
        final(k).procs@[pid as int].unwrap().children@ == old(
            k,
        ).procs@[pid as int].unwrap().children@.push(r as usize),
        forall|q: int|
            0 <= q < old(k).procs@.len() && q != pid ==> final(k).procs@[q] == old(k).procs@[q],
{
    let new_pid = k.procs.len();
    let child = Process::make(new_pid, Some(pid), space);
    k.procs.push(Some(child));
    match &mut k.procs[pid] {
        Some(par) => {
            par.children.push(new_pid);
        },
        None => {},
    }
    proof {
        let kk = *k;
        let okk = *old(k);
        let n = okk.procs@.len() as int;
        assert(kk.procs@[pid as int].unwrap().children@ =~= okk.procs@[pid as int].unwrap().children@.push(
            new_pid,
        ));
        assert forall|i: int|
            0 <= i < kk.procs@.len() && kk.procs@[i] is Some implies proc_wf(
            (#[trigger] kk.procs@[i]).unwrap(),
        ) && kk.procs@[i].unwrap().pid == i by {
            if i == n {
            } else if i == pid {
                assert(proc_wf(okk.procs@[i].unwrap()));
                assert(kk.procs@[i].unwrap().threads@ == okk.procs@[i].unwrap().threads@);
                assert(kk.procs@[i].unwrap().mutex_cls == okk.procs@[i].unwrap().mutex_cls);
                assert(kk.procs@[i].unwrap().sem_cls == okk.procs@[i].unwrap().sem_cls);
                assert(kk.procs@[i].unwrap().condvars@ == okk.procs@[i].unwrap().condvars@);
                assert(proc_wf(kk.procs@[i].unwrap()));
            } else {
                assert(kk.procs@[i] == okk.procs@[i]);
                assert(proc_wf(okk.procs@[i].unwrap()));
            }
        }
        assert forall|i: int, j: int|
            0 <= i < kk.procs@.len() && kk.procs@[i] is Some && 0 <= j
                < kk.procs@[i].unwrap().children@.len() implies {
            let c = (#[trigger] kk.procs@[i].unwrap().children@[j]) as int;
            &&& 0 <= c < kk.procs@.len()
            &&& c != i
            &&& kk.procs@[c] is Some
            &&& kk.procs@[c].unwrap().parent == Some(i as usize)
        } by {
            if i == pid {
                if j < okk.procs@[pid as int].unwrap().children@.len() {
                    let c = okk.procs@[pid as int].unwrap().children@[j] as int;
                    assert(0 <= c < n && c != pid && okk.procs@[c] is Some);
                    assert(kk.procs@[c] == okk.procs@[c] || c == pid as int);
                } else {
                    assert(kk.procs@[i].unwrap().children@[j] == new_pid);
                }
            } else if i < n {
                assert(kk.procs@[i] == okk.procs@[i]);
                let c = okk.procs@[i].unwrap().children@[j] as int;
                assert(0 <= c < n && c != i && okk.procs@[c] is Some);
                if c == pid {
                    assert(kk.procs@[c].unwrap().parent == okk.procs@[c].unwrap().parent);
                } else {
                    assert(kk.procs@[c] == okk.procs@[c]);
                }
            } else {
                assert(kk.procs@[i].unwrap().children@.len() == 0);
            }
        }
        assert forall|i: int, j1: int, j2: int|
            0 <= i < kk.procs@.len() && kk.procs@[i] is Some && 0 <= j1
                < kk.procs@[i].unwrap().children@.len() && 0 <= j2
                < kk.procs@[i].unwrap().children@.len() && j1 != j2 implies (
        #[trigger] kk.procs@[i].unwrap().children@[j1]) != (
        #[trigger] kk.procs@[i].unwrap().children@[j2]) by {
            if i == pid {
                let oc = okk.procs@[pid as int].unwrap().children@;
                if j1 < oc.len() && j2 < oc.len() {
                    assert(oc[j1] != oc[j2]);
                } else if j1 < oc.len() {
                    assert((oc[j1] as int) < n);
                } else if j2 < oc.len() {
                    assert((oc[j2] as int) < n);
                }
            } else if i < n {
                assert(kk.procs@[i] == okk.procs@[i]);
            }
        }
        assert(kernel_wf(kk));
    }
    new_pid
}

/// Fork the calling process: the child is a copy of the parent's
/// address space with fresh default flags and a single ready main
/// thread whose pending syscall returns 0; it is appended to the
/// parent's children and handed to the scheduler.  The parent receives
/// the child's pid.
pub fn sys_fork(k: &mut Kernel, pid: usize) -> (r: isize)
    requires
        kernel_wf(*old(k)),
        (pid as int) < old(k).procs@.len(),
        old(k).procs@[pid as int] is Some,
        old(k).procs@.len() < PID_LIMIT,
    ensures
        kernel_wf(*final(k)),
        r == old(k).procs@.len(),
        final(k).procs@.len() == old(k).procs@.len() + 1,
        final(k).procs@[r as int] is Some,
        ({
            let child = final(k).procs@[r as int].unwrap();
            let parent = old(k).procs@[pid as int].unwrap();
            &&& child.pid == r
            &&& child.parent == Some(pid)
            &&& child.children@.len() == 0
            &&& !child.zombie
            &&& child.space.regions@ == parent.space.regions@
            &&& child.space.brk == parent.space.brk
            &&& child.space.heap_bottom == parent.space.heap_bottom
            &&& child.space.page_table.entries@ == parent.space.page_table.entries@
            &&& child.priority is None
            &&& !child.deadlock_detect
            &&& child.threads@.len() == 1
            &&& child.threads@[0] is Some
            &&& child.threads@[0].unwrap().task_status == TaskStatus::Ready
            &&& child.threads@[0].unwrap().task_cx.syscall_ret == 0
        }),
        final(k).procs@[pid as int] is Some,
        final(k).procs@[pid as int].unwrap() == (Process {
            children: final(k).procs@[pid as int].unwrap().children,
            ..old(k).procs@[pid as int].unwrap()
        }),
        final(k).procs@[pid as int].unwrap().children@ == old(
            k,
        ).procs@[pid as int].unwrap().children@.push(r as usize),
        forall|q: int|
            0 <= q < old(k).procs@.len() && q != pid ==> final(k).procs@[q] == old(k).procs@[q],
{
    let space: AddressSpace;
    match &k.procs[pid] {
        Some(par) => {
            space = clone_space(&par.space);
        },
        None => {
            proof {
                assert(false);
            }
            space = AddressSpace {
                regions: Vec::new(),
                heap_bottom: 0,
                brk: 0,
                page_table: PageTable { entries: Vec::new() },
            };
        },
    }
    let new_pid = add_child(k, pid, space);
    new_pid as isize
}

/// Spawn: create a child directly from the program image the external
/// loader built — no copy of the parent's address space is made and
/// discarded.  `None` (program not found) is refused with -1; else the
/// new child's pid is returned.
pub fn sys_spawn(k: &mut Kernel, pid: usize, image: Option<AddressSpace>) -> (r: isize)
    requires
        kernel_wf(*old(k)),
        (pid as int) < old(k).procs@.len(),
        old(k).procs@[pid as int] is Some,
        old(k).procs@.len() < PID_LIMIT,
        image is Some ==> space_wf(image.unwrap()),
    ensures
        kernel_wf(*final(k)),
        (r == -1) <==> image is None,
        r == -1 ==> *final(k) == *old(k),
        image is Some ==> {
            let child = final(k).procs@[r as int].unwrap();
            &&& r == old(k).procs@.len()
            &&& final(k).procs@.len() == old(k).procs@.len() + 1
            &&& final(k).procs@[r as int] is Some
            &&& child.pid == r
            &&& child.parent == Some(pid)
            &&& child.space == image.unwrap()
            &&& !child.zombie
            &&& child.threads@.len() == 1
            &&& child.threads@[0] is Some
            &&& child.threads@[0].unwrap().task_status == TaskStatus::Ready
            &&& final(k).procs@[pid as int] is Some
            &&& final(k).procs@[pid as int].unwrap() == (Process {
                children: final(k).procs@[pid as int].unwrap().children,
                ..old(k).procs@[pid as int].unwrap()
            })
            &&& final(k).procs@[pid as int].unwrap().children@ == old(
                k,
            ).procs@[pid as int].unwrap().children@.push((r as int) as usize)
            &&& (forall|q: int|
                0 <= q < old(k).procs@.len() && q != pid ==> final(k).procs@[q] == old(
                    k,
                ).procs@[q])
        },
{
    match image {
        Some(s) => {
            let new_pid = add_child(k, pid, s);
            new_pid as isize
        },
        None => -1,
    }
}

/// The pids of process `pid`'s children.
pub open spec fn children_of(k: Kernel, pid: int) -> Seq<usize> {
    k.procs@[pid].unwrap().children@
}

/// `c` matches the waitpid target: the wildcard -1, or the pid itself.
pub open spec fn target_matches(c: usize, target: int) -> bool {
    target == -1 || c == target
}

/// Some child of `pid` matches the target (by id, whatever its state).
pub open spec fn has_child_match(k: Kernel, pid: int, target: int) -> bool {
    exists|j: int|
        0 <= j < children_of(k, pid).len() && target_matches(
            #[trigger] children_of(k, pid)[j],
            target,
        )
}

/// The `j`th child of `pid` matches the target and has exited.
pub open spec fn zombie_match_at(k: Kernel, pid: int, target: int, j: int) -> bool {
    &&& 0 <= j < children_of(k, pid).len()
    &&& target_matches(children_of(k, pid)[j], target)
    &&& k.procs@[children_of(k, pid)[j] as int].unwrap().zombie
}

/// Some matching child of `pid` has exited and awaits reaping.
pub open spec fn has_zombie_match(k: Kernel, pid: int, target: int) -> bool {
    exists|j: int| #[trigger] zombie_match_at(k, pid, target, j)
}

/// Reap a child of process `pid`.  Returns -1 when no child matches
/// `target` at all (by id, ignoring state); -2 when a matching child
/// exists but none has exited yet (the caller should retry later); else
/// the pid of the first matching zombie child, which is removed from
/// the children list and from the arena, its exit code written to
/// `exit_code_out`.
#[verifier::rlimit(100)]
pub fn sys_waitpid(k: &mut Kernel, pid: usize, target: isize, exit_code_out: &mut i32) -> (r:
    isize)
    requires
        kernel_wf(*old(k)),
        (pid as int) < old(k).procs@.len(),
        old(k).procs@[pid as int] is Some,
    ensures
        kernel_wf(*final(k)),
        (r == -1) <==> !has_child_match(*old(k), pid as int, target as int),
        (r == -2) <==> (has_child_match(*old(k), pid as int, target as int) && !has_zombie_match(
            *old(k),
            pid as int,
            target as int,
        )),
        (r == -1 || r == -2) ==> *final(k) == *old(k) && *final(exit_code_out) == *old(
            exit_code_out,
        ),
        (r >= 0) <==> has_zombie_match(*old(k), pid as int, target as int),
        r >= 0 ==> (exists|j: int|
            {
                let c = children_of(*old(k), pid as int)[j] as int;
                &&& #[trigger] zombie_match_at(*old(k), pid as int, target as int, j)
                &&& (forall|j2: int|
                    0 <= j2 < j ==> !zombie_match_at(*old(k), pid as int, target as int, j2))
                &&& r == c
                &&& final(k).procs@.len() == old(k).procs@.len()
                &&& final(k).procs@[c] is None
                &&& final(k).procs@[pid as int] is Some
                &&& final(k).procs@[pid as int].unwrap() == (Process {
                    children: final(k).procs@[pid as int].unwrap().children,
                    ..old(k).procs@[pid as int].unwrap()
                })
                &&& final(k).procs@[pid as int].unwrap().children@ == children_of(
                    *old(k),
                    pid as int,
                ).remove(j)
                &&& *final(exit_code_out) == old(k).procs@[c].unwrap().exit_code
                &&& (forall|q: int|
                    0 <= q < old(k).procs@.len() && q != pid && q != c ==> final(k).procs@[q]
                        == old(k).procs@[q])
            }),
{
    let ghost okk = *old(k);
    let mut kids: Vec<usize> = Vec::new();
    match &k.procs[pid] {
        Some(par) => {
            let n = par.children.len();
            let mut i: usize = 0;
            while i < n
                invariant
                    i <= n,
                    n == par.children@.len(),
                    kids@ =~= par.children@.subrange(0, i as int),
                decreases n - i,
            {
                kids.push(par.children[i]);
                assert(kids@ =~= par.children@.subrange(0, i + 1));
                i = i + 1;
            }
            assert(kids@ =~= par.children@);
        },
        None => {},
    }
    let n = kids.len();
    let mut found: Option<usize> = None;
    let mut any: bool = false;
    let mut j: usize = 0;
    while j < n
        invariant
            j <= n,
            n == kids@.len(),
            *k == okk,
            okk == *old(k),
            kernel_wf(okk),
            (pid as int) < okk.procs@.len(),
            okk.procs@[pid as int] is Some,
            kids@ == children_of(okk, pid as int),
            any <==> (exists|j2: int|
                0 <= j2 < j && target_matches(#[trigger] kids@[j2], target as int)),
            match found {
                Some(f) => 0 <= f < j && zombie_match_at(okk, pid as int, target as int, f as int)
                    && (forall|f2: int|
                    0 <= f2 < f ==> !zombie_match_at(okk, pid as int, target as int, f2)),
                None => forall|j2: int|
                    0 <= j2 < j ==> !zombie_match_at(okk, pid as int, target as int, j2),
            },
        decreases n - j,
    {
        let c = kids[j];
        proof {
            assert(okk.procs@[pid as int].unwrap().children@[j as int] == c);
            assert((c as int) < okk.procs@.len() && okk.procs@[c as int] is Some);
        }
        let m = target == -1 || c as isize == target;
        if m {
            any = true;
            if found.is_none() {
                let z = match &k.procs[c] {
                    Some(ch) => ch.zombie,
                    None => false,
                };
                if z {
                    found = Some(j);
                }
            }
        }
        j = j + 1;
    }
    match found {
        Some(f) => {
            let c = kids[f];
            proof {
                assert(zombie_match_at(okk, pid as int, target as int, f as int));
                assert(okk.procs@[pid as int].unwrap().children@[f as int] == c);
                assert((c as int) < okk.procs@.len() && okk.procs@[c as int] is Some);
                assert((c as int) != pid as int);
            }
            let code = match &k.procs[c] {
                Some(ch) => ch.exit_code,
                None => 0,
            };
            match &mut k.procs[pid] {
                Some(par) => {
                    par.children.remove(f);
                },
                None => {},
            }
            k.procs[c] = None;
            *exit_code_out = code;
            proof {
                lemma_wf_after_reap(okk, *k, pid as int, f as int, c as int);
                assert(zombie_match_at(okk, pid as int, target as int, f as int));
                assert(has_zombie_match(okk, pid as int, target as int));
            }
            c as isize
        },
        None => {
            proof {
                if has_zombie_match(okk, pid as int, target as int) {
                    let jz = choose|jz: int| zombie_match_at(okk, pid as int, target as int, jz);
                    assert(0 <= jz < n);
                    assert(!zombie_match_at(okk, pid as int, target as int, jz));
                }
                if any && has_child_match(okk, pid as int, target as int) {
                }
            }
            if any {
                -2
            } else {
                proof {
                    if has_zombie_match(okk, pid as int, target as int) {
                        let jz = choose|jz: int|
                            zombie_match_at(okk, pid as int, target as int, jz);
                        assert(target_matches(kids@[jz], target as int));
                    }
                }
                -1
            }
        },
    }
}

/// After `waitpid` reaped the `f`th child `c` of process `pid` —
/// removed it from the children list and cleared its arena slot — the
/// kernel invariant still holds: the reaped pid sat in no other
/// children list, since every child points back at its one parent.
#[verifier::rlimit(100)]
proof fn lemma_wf_after_reap(okk: Kernel, kk: Kernel, pid: int, f: int, c: int)
    requires
        kernel_wf(okk),
        0 <= pid < okk.procs@.len(),
        okk.procs@[pid] is Some,
        0 <= f < children_of(okk, pid).len(),
        c == children_of(okk, pid)[f] as int,
        kk.procs@.len() == okk.procs@.len(),
        kk.procs@[pid] is Some,
        kk.procs@[pid].unwrap() == (Process {
            children: kk.procs@[pid].unwrap().children,
            ..okk.procs@[pid].unwrap()
        }),
        kk.procs@[pid].unwrap().children@ == children_of(okk, pid).remove(f),
        kk.procs@[c] is None,
        forall|q: int| 0 <= q < okk.procs@.len() && q != pid && q != c ==> kk.procs@[q] == okk.procs@[q],
    ensures
        kernel_wf(kk),
{
    assert(c != pid);
    assert forall|i: int|
        0 <= i < kk.procs@.len() && kk.procs@[i] is Some implies proc_wf(
        (#[trigger] kk.procs@[i]).unwrap(),
    ) && kk.procs@[i].unwrap().pid == i by {
        if i == pid {
            assert(proc_wf(okk.procs@[i].unwrap()));
            assert(kk.procs@[i].unwrap().threads@ == okk.procs@[i].unwrap().threads@);
            assert(kk.procs@[i].unwrap().mutex_cls == okk.procs@[i].unwrap().mutex_cls);
            assert(kk.procs@[i].unwrap().sem_cls == okk.procs@[i].unwrap().sem_cls);
            assert(kk.procs@[i].unwrap().condvars@ == okk.procs@[i].unwrap().condvars@);
            assert(proc_wf(kk.procs@[i].unwrap()));
        } else {
            assert(kk.procs@[i] == okk.procs@[i]);
            assert(proc_wf(okk.procs@[i].unwrap()));
        }
    }
    let och = okk.procs@[pid].unwrap().children@;
    assert forall|i: int, j2: int|
        0 <= i < kk.procs@.len() && kk.procs@[i] is Some && 0 <= j2
            < kk.procs@[i].unwrap().children@.len() implies {
        let c2 = (#[trigger] kk.procs@[i].unwrap().children@[j2]) as int;
        &&& 0 <= c2 < kk.procs@.len()
        &&& c2 != i
        &&& kk.procs@[c2] is Some
        &&& kk.procs@[c2].unwrap().parent == Some(i as usize)
    } by {
        if i == pid {
            let c2v = kk.procs@[i].unwrap().children@[j2];
            let oj = if j2 < f {
                j2
            } else {
                j2 + 1
            };
            assert(c2v == och[oj]);
            assert(och[oj] != och[f]);
            let c2 = c2v as int;
            assert(0 <= c2 < okk.procs@.len() && c2 != pid && okk.procs@[c2] is Some
                && okk.procs@[c2].unwrap().parent == Some(pid as usize));
            assert(c2 != c);
            assert(kk.procs@[c2] == okk.procs@[c2]);
        } else {
            assert(kk.procs@[i] == okk.procs@[i]);
            let c2 = okk.procs@[i].unwrap().children@[j2] as int;
            assert(0 <= c2 < okk.procs@.len() && c2 != i && okk.procs@[c2] is Some
                && okk.procs@[c2].unwrap().parent == Some(i as usize));
            // the reaped process was a child of the caller alone
            assert(c2 != c) by {
                if c2 == c {
                    assert(okk.procs@[c2].unwrap().parent == Some(pid as usize));
                }
            }
            if c2 == pid {
                assert(kk.procs@[c2].unwrap().parent == okk.procs@[c2].unwrap().parent);
            } else {
                assert(kk.procs@[c2] == okk.procs@[c2]);
            }
        }
    }
    assert forall|i: int, j1: int, j2: int|
        0 <= i < kk.procs@.len() && kk.procs@[i] is Some && 0 <= j1
            < kk.procs@[i].unwrap().children@.len() && 0 <= j2
            < kk.procs@[i].unwrap().children@.len() && j1 != j2 implies (
    #[trigger] kk.procs@[i].unwrap().children@[j1]) != (
    #[trigger] kk.procs@[i].unwrap().children@[j2]) by {
        if i == pid {
            let o1 = if j1 < f {
                j1
            } else {
                j1 + 1
            };
            let o2 = if j2 < f {
                j2
            } else {
                j2 + 1
            };
            assert(kk.procs@[i].unwrap().children@[j1] == och[o1]);
            assert(kk.procs@[i].unwrap().children@[j2] == och[o2]);
            assert(och[o1] != och[o2]);
        } else {
            assert(kk.procs@[i] == okk.procs@[i]);
        }
    }
    assert(kernel_wf(kk));
}

/// Terminate process `pid`: record the exit code, become a zombie
/// awaiting the parent's `waitpid`, orphan the children (their parent
/// link clears), drop all threads and release every synchronization
/// object with its bookkeeping.  Yielding the processor for good is
/// the external scheduler's work.
pub fn sys_exit(k: &mut Kernel, pid: usize, exit_code: i32)
    requires
        kernel_wf(*old(k)),
        (pid as int) < old(k).procs@.len(),
        old(k).procs@[pid as int] is Some,
    ensures
        kernel_wf(*final(k)),
        final(k).procs@.len() == old(k).procs@.len(),
        final(k).procs@[pid as int] is Some,
        ({
            let oldp = old(k).procs@[pid as int].unwrap();
            let newp = final(k).procs@[pid as int].unwrap();
            &&& newp.zombie
            &&& newp.exit_code == exit_code
            &&& newp.children@.len() == 0
            &&& newp.pid == pid
            &&& newp.parent == oldp.parent
            &&& newp.space == oldp.space
            &&& newp.threads@.len() == oldp.threads@.len()
            &&& (forall|t: int| 0 <= t < newp.threads@.len() ==> (#[trigger] newp.threads@[t]) is None)
            &&& newp.mutex_cls.slots@.len() == 0
            &&& newp.sem_cls.slots@.len() == 0
            &&& newp.condvars@.len() == 0
        }),
        forall|j: int|
            0 <= j < children_of(*old(k), pid as int).len() ==> {
                let c = (#[trigger] children_of(*old(k), pid as int)[j]) as int;
                &&& final(k).procs@[c] is Some
                &&& final(k).procs@[c].unwrap() == (Process {
                    parent: None,
                    ..old(k).procs@[c].unwrap()
                })
            },
        forall|q: int|
            0 <= q < old(k).procs@.len() && q != pid && !children_of(*old(k), pid as int).contains(
                q as usize,
            ) ==> final(k).procs@[q] == old(k).procs@[q],
{
    let ghost okk = *old(k);
    let mut kids: Vec<usize> = Vec::new();
    match &k.procs[pid] {
        Some(par) => {
            let n = par.children.len();
            let mut i: usize = 0;
            while i < n
                invariant
                    i <= n,
                    n == par.children@.len(),
                    kids@ =~= par.children@.subrange(0, i as int),
                decreases n - i,
            {
                kids.push(par.children[i]);
                assert(kids@ =~= par.children@.subrange(0, i + 1));
                i = i + 1;
            }
            assert(kids@ =~= par.children@);
        },
        None => {},
    }
    let n = kids.len();
    let mut idx: usize = 0;
    while idx < n
        invariant
            idx <= n,
            n == kids@.len(),
            okk == *old(k),
            kernel_wf(okk),
            (pid as int) < okk.procs@.len(),
            okk.procs@[pid as int] is Some,
            kids@ == children_of(okk, pid as int),
            k.procs@.len() == okk.procs@.len(),
            k.procs@[pid as int] == okk.procs@[pid as int],
            forall|q: int|
                0 <= q < okk.procs@.len() && (exists|i2: int| 0 <= i2 < idx && kids@[i2] == q)
                    ==> (#[trigger] k.procs@[q]) is Some && k.procs@[q].unwrap() == (Process {
                    parent: None,
                    ..okk.procs@[q].unwrap()
                }),
            forall|q: int|
                0 <= q < okk.procs@.len() && !(exists|i2: int| 0 <= i2 < idx && kids@[i2] == q)
                    ==> (#[trigger] k.procs@[q]) == okk.procs@[q],
        decreases n - idx,
    {
        let c = kids[idx];
        proof {
            assert(okk.procs@[pid as int].unwrap().children@[idx as int] == c);
            assert((c as int) < okk.procs@.len() && okk.procs@[c as int] is Some);
            assert((c as int) != pid as int);
        }
        match &mut k.procs[c] {
            Some(cp) => {
                cp.parent = None;
            },
            None => {},
        }
        idx = idx + 1;
    }
    let nthreads = match &k.procs[pid] {
        Some(par) => par.threads.len(),
        None => 0,
    };
    let mut blank: Vec<Option<TaskControlBlock>> = Vec::new();
    let mut t: usize = 0;
    while t < nthreads
        invariant
            t <= nthreads,
            blank@.len() == t,
            forall|t2: int| 0 <= t2 < t ==> (#[trigger] blank@[t2]) is None,
        decreases nthreads - t,
    {
        blank.push(None);
        t = t + 1;
    }
    let m_empty = SyncClass::empty(nthreads);
    let s_empty = SyncClass::empty(nthreads);
    let ghost mid = *k;
    match &mut k.procs[pid] {
        Some(par) => {
            par.zombie = true;
            par.exit_code = exit_code;
            par.children = Vec::new();
            par.threads = blank;
            par.mutex_cls = m_empty;
            par.sem_cls = s_empty;
            par.condvars = Vec::new();
        },
        None => {},
    }
    proof {
        let kk = *k;
        assert(kk.procs@.len() == okk.procs@.len());
        assert(proc_wf(kk.procs@[pid as int].unwrap()));
        assert forall|i: int|
            0 <= i < kk.procs@.len() && kk.procs@[i] is Some implies proc_wf(
            (#[trigger] kk.procs@[i]).unwrap(),
        ) && kk.procs@[i].unwrap().pid == i by {
            if i != pid {
                assert(kk.procs@[i] == mid.procs@[i]);
                if exists|i2: int| 0 <= i2 < kids@.len() && kids@[i2] == i {
                    assert(mid.procs@[i].unwrap() == (Process {
                        parent: None,
                        ..okk.procs@[i].unwrap()
                    }));
                    assert(proc_wf(okk.procs@[i].unwrap()));
                    assert(kk.procs@[i].unwrap().threads@ == okk.procs@[i].unwrap().threads@);
                    assert(kk.procs@[i].unwrap().mutex_cls == okk.procs@[i].unwrap().mutex_cls);
                    assert(kk.procs@[i].unwrap().sem_cls == okk.procs@[i].unwrap().sem_cls);
                    assert(kk.procs@[i].unwrap().condvars@ == okk.procs@[i].unwrap().condvars@);
                    assert(kk.procs@[i].unwrap().space == okk.procs@[i].unwrap().space);
                    assert(proc_wf(kk.procs@[i].unwrap()));
                } else {
                    assert(mid.procs@[i] == okk.procs@[i]);
                    assert(proc_wf(okk.procs@[i].unwrap()));
                }
            }
        }
        assert forall|i: int, j2: int|
            0 <= i < kk.procs@.len() && kk.procs@[i] is Some && 0 <= j2
                < kk.procs@[i].unwrap().children@.len() implies {
            let c2 = (#[trigger] kk.procs@[i].unwrap().children@[j2]) as int;
            &&& 0 <= c2 < kk.procs@.len()
            &&& c2 != i
            &&& kk.procs@[c2] is Some
            &&& kk.procs@[c2].unwrap().parent == Some(i as usize)
        } by {
            if i != pid {
                assert(kk.procs@[i].unwrap().children@ == okk.procs@[i].unwrap().children@);
                let c2 = okk.procs@[i].unwrap().children@[j2] as int;
                assert(0 <= c2 < okk.procs@.len() && c2 != i && okk.procs@[c2] is Some
                    && okk.procs@[c2].unwrap().parent == Some(i as usize));
                // no child of the exiting process sits in another list
                assert(!(exists|i2: int| 0 <= i2 < kids@.len() && kids@[i2] == c2)) by {
                    if exists|i2: int| 0 <= i2 < kids@.len() && kids@[i2] == c2 {
                        let i2 = choose|i2: int| 0 <= i2 < kids@.len() && kids@[i2] == c2;
                        assert(okk.procs@[c2].unwrap().parent == Some(pid));
                    }
                }
                if c2 == pid {
                    assert(kk.procs@[c2].unwrap().parent == okk.procs@[c2].unwrap().parent);
                } else {
                    assert(kk.procs@[c2] == mid.procs@[c2]);
                    assert(mid.procs@[c2] == okk.procs@[c2]);
                }
            }
        }
        assert forall|i: int, j1: int, j2: int|
            0 <= i < kk.procs@.len() && kk.procs@[i] is Some && 0 <= j1
                < kk.procs@[i].unwrap().children@.len() && 0 <= j2
                < kk.procs@[i].unwrap().children@.len() && j1 != j2 implies (
        #[trigger] kk.procs@[i].unwrap().children@[j1]) != (
        #[trigger] kk.procs@[i].unwrap().children@[j2]) by {
            if i != pid {
                assert(kk.procs@[i].unwrap().children@ == okk.procs@[i].unwrap().children@);
            }
        }
        assert(kernel_wf(kk));
        assert forall|j: int| 0 <= j < children_of(okk, pid as int).len() implies {
            let c = (#[trigger] children_of(okk, pid as int)[j]) as int;
            &&& kk.procs@[c] is Some
            &&& kk.procs@[c].unwrap() == (Process { parent: None, ..okk.procs@[c].unwrap() })
        } by {
            let c = children_of(okk, pid as int)[j] as int;
            assert(0 <= c < okk.procs@.len() && c != pid);
            assert(exists|i2: int| 0 <= i2 < kids@.len() && #[trigger] kids@[i2] == c);
            assert(kk.procs@[c] == mid.procs@[c]);
        }
        assert forall|q: int|
            0 <= q < okk.procs@.len() && q != pid && !children_of(okk, pid as int).contains(
                q as usize,
            ) implies #[trigger] kk.procs@[q] == okk.procs@[q] by {
            assert(!(exists|i2: int| 0 <= i2 < kids@.len() && kids@[i2] == q)) by {
                if exists|i2: int| 0 <= i2 < kids@.len() && kids@[i2] == q {
                    let i2 = choose|i2: int| 0 <= i2 < kids@.len() && kids@[i2] == q;
                    assert(children_of(okk, pid as int)[i2] == q as usize);
                    assert(children_of(okk, pid as int).contains(q as usize));
                }
            }
            assert(kk.procs@[q] == mid.procs@[q]);
        }
    }
}

} // verus!
