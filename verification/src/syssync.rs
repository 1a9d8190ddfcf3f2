//! Synchronization syscalls: sleep, mutexes, semaphores, condition
//! variables and the deadlock-detection toggle.
//!
//! All of them act on the calling process's own state; the calling
//! thread is named explicitly.  Blocking acquisitions (`sys_mutex_lock`,
//! `sys_semaphore_down`) consult the Banker's safety check first when
//! detection is enabled for the process, and refuse the request with
//! `DEADLOCK_ERR` rather than ever entering an unsafe state.

use crate::process::{proc_wf, thread_running, CondWaiter, CondvarObj, Process};
use crate::sync::{
    acquire_outcome, class_wf, grant_outcome, mat_push_zero_col, mat_set, release_outcome,
    SyncClass, DEADLOCK_ERR, ID_LIMIT,
};
use crate::task::{TaskControlBlock, TaskStatus};
use vstd::prelude::*;

verus! {

/// The two process values describe the same state.
pub open spec fn proc_eq(a: Process, b: Process) -> bool {
    &&& a.pid == b.pid
    &&& a.parent == b.parent
    &&& a.children@ == b.children@
    &&& a.exit_code == b.exit_code
    &&& a.zombie == b.zombie
    &&& a.space == b.space
    &&& a.priority == b.priority
    &&& a.deadlock_detect == b.deadlock_detect
    &&& a.threads@ == b.threads@
    &&& a.mutex_cls == b.mutex_cls
    &&& a.sem_cls == b.sem_cls
    &&& a.condvars@ == b.condvars@
}

/// Nothing of the process changed but the mutex class and the threads.
pub open spec fn mutex_frame(oldp: Process, newp: Process) -> bool {
    &&& newp.pid == oldp.pid
    &&& newp.parent == oldp.parent
    &&& newp.children@ == oldp.children@
    &&& newp.exit_code == oldp.exit_code
    &&& newp.zombie == oldp.zombie
    &&& newp.space == oldp.space
    &&& newp.priority == oldp.priority
    &&& newp.deadlock_detect == oldp.deadlock_detect
    &&& newp.sem_cls == oldp.sem_cls
    &&& newp.condvars@ == oldp.condvars@
}

/// Nothing of the process changed but the semaphore class and the
/// threads.
pub open spec fn sem_frame(oldp: Process, newp: Process) -> bool {
    &&& newp.pid == oldp.pid
    &&& newp.parent == oldp.parent
    &&& newp.children@ == oldp.children@
    &&& newp.exit_code == oldp.exit_code
    &&& newp.zombie == oldp.zombie
    &&& newp.space == oldp.space
    &&& newp.priority == oldp.priority
    &&& newp.deadlock_detect == oldp.deadlock_detect
    &&& newp.mutex_cls == oldp.mutex_cls
    &&& newp.condvars@ == oldp.condvars@
}

/// The running caller holds no pending request in the class: a unit of
/// need belongs to a blocked thread, and the caller is running.
proof fn lemma_running_need_zero(p: Process, cls: SyncClass, tid: int)
    requires
        thread_running(p, tid),
        cls == p.mutex_cls || cls == p.sem_cls,
        proc_wf(p),
    ensures
        forall|r2: int| 0 <= r2 < cls.slots@.len() ==> cls.need.deep_view()[tid][r2] == 0,
{
    assert forall|r2: int| 0 <= r2 < cls.slots@.len() implies cls.need.deep_view()[tid][r2]
        == 0 by {
        if cls.need.deep_view()[tid][r2] >= 1 {
            assert(p.threads@[tid].unwrap().task_status == TaskStatus::Blocked);
        }
    }
}

/// Create a mutex for the calling process: the spin variant when
/// `blocking` is false, the parking variant when true.  The new object
/// takes the first empty slot or a fresh one; its slot id is returned.
pub fn sys_mutex_create(p: &mut Process, blocking: bool) -> (r: isize)
    requires
        proc_wf(*old(p)),
        old(p).mutex_cls.slots@.len() < ID_LIMIT,
    ensures
        proc_wf(*final(p)),
        r >= 0,
        (r as int) < final(p).mutex_cls.slots@.len(),
        final(p).mutex_cls.slots@[r as int] == Some(blocking),
        final(p).mutex_cls.capacity@[r as int] == 1,
        final(p).mutex_cls.available@[r as int] == 1,
        final(p).threads@ == old(p).threads@,
        mutex_frame(*old(p), *final(p)),
        // the first empty slot is reused in place, every other column untouched
        ((exists|j: int|
            0 <= j < old(p).mutex_cls.slots@.len() && old(p).mutex_cls.slots@[j] is None) ==> {
            &&& (r as int) < old(p).mutex_cls.slots@.len()
            &&& old(p).mutex_cls.slots@[r as int] is None
            &&& (forall|j: int| 0 <= j < r ==> old(p).mutex_cls.slots@[j] is Some)
            &&& final(p).mutex_cls.slots@ == old(p).mutex_cls.slots@.update(
                r as int,
                Some(blocking),
            )
            &&& final(p).mutex_cls.capacity@ == old(p).mutex_cls.capacity@.update(
                r as int,
                1usize,
            )
            &&& final(p).mutex_cls.available@ == old(p).mutex_cls.available@.update(
                r as int,
                1usize,
            )
            &&& final(p).mutex_cls.allocation.deep_view() == old(
                p,
            ).mutex_cls.allocation.deep_view()
            &&& final(p).mutex_cls.need.deep_view() == old(p).mutex_cls.need.deep_view()
        }),
        // with no empty slot the list grows by one zeroed column
        (!(exists|j: int|
            0 <= j < old(p).mutex_cls.slots@.len() && old(p).mutex_cls.slots@[j] is None) ==> {
            &&& r == old(p).mutex_cls.slots@.len()
            &&& final(p).mutex_cls.slots@ == old(p).mutex_cls.slots@.push(Some(blocking))
            &&& final(p).mutex_cls.capacity@ == old(p).mutex_cls.capacity@.push(1usize)
            &&& final(p).mutex_cls.available@ == old(p).mutex_cls.available@.push(1usize)
            &&& final(p).mutex_cls.allocation.deep_view() == mat_push_zero_col(
                old(p).mutex_cls.allocation.deep_view(),
            )
            &&& final(p).mutex_cls.need.deep_view() == mat_push_zero_col(
                old(p).mutex_cls.need.deep_view(),
            )
        }),
{
    let id = p.mutex_cls.class_create(blocking, 1);
    proof {
        lemma_class_change_keeps_proc_wf(*old(p), *p);
    }
    id as isize
}

/// Create a counting semaphore with `res_count` initial units for the
/// calling process.  The new object takes the first empty slot or a
/// fresh one; its slot id is returned.
pub fn sys_semaphore_create(p: &mut Process, res_count: usize) -> (r: isize)
    requires
        proc_wf(*old(p)),
        old(p).sem_cls.slots@.len() < ID_LIMIT,
    ensures
        proc_wf(*final(p)),
        r >= 0,
        (r as int) < final(p).sem_cls.slots@.len(),
        final(p).sem_cls.slots@[r as int] == Some(true),
        final(p).sem_cls.capacity@[r as int] == res_count,
        final(p).sem_cls.available@[r as int] == res_count,
        final(p).threads@ == old(p).threads@,
        sem_frame(*old(p), *final(p)),
        // the first empty slot is reused in place, every other column untouched
        ((exists|j: int| 0 <= j < old(p).sem_cls.slots@.len() && old(p).sem_cls.slots@[j] is None)
            ==> {
            &&& (r as int) < old(p).sem_cls.slots@.len()
            &&& old(p).sem_cls.slots@[r as int] is None
            &&& (forall|j: int| 0 <= j < r ==> old(p).sem_cls.slots@[j] is Some)
            &&& final(p).sem_cls.slots@ == old(p).sem_cls.slots@.update(r as int, Some(true))
            &&& final(p).sem_cls.capacity@ == old(p).sem_cls.capacity@.update(r as int, res_count)
            &&& final(p).sem_cls.available@ == old(p).sem_cls.available@.update(
                r as int,
                res_count,
            )
            &&& final(p).sem_cls.allocation.deep_view() == old(p).sem_cls.allocation.deep_view()
            &&& final(p).sem_cls.need.deep_view() == old(p).sem_cls.need.deep_view()
        }),
        // with no empty slot the list grows by one zeroed column
        (!(exists|j: int| 0 <= j < old(p).sem_cls.slots@.len() && old(p).sem_cls.slots@[j] is None)
            ==> {
            &&& r == old(p).sem_cls.slots@.len()
            &&& final(p).sem_cls.slots@ == old(p).sem_cls.slots@.push(Some(true))
            &&& final(p).sem_cls.capacity@ == old(p).sem_cls.capacity@.push(res_count)
            &&& final(p).sem_cls.available@ == old(p).sem_cls.available@.push(res_count)
            &&& final(p).sem_cls.allocation.deep_view() == mat_push_zero_col(
                old(p).sem_cls.allocation.deep_view(),
            )
            &&& final(p).sem_cls.need.deep_view() == mat_push_zero_col(
                old(p).sem_cls.need.deep_view(),
            )
        }),
{
    let id = p.sem_cls.class_create(true, res_count);
    proof {
        lemma_class_change_keeps_proc_wf(*old(p), *p);
    }
    id as isize
}

/// A class change that only creates a slot (or otherwise leaves every
/// need cell that existed unchanged and new cells zero, threads and
/// condition variables untouched) keeps the process invariant.
proof fn lemma_class_change_keeps_proc_wf(oldp: Process, newp: Process)
    requires
        proc_wf(oldp),
        newp.threads@ == oldp.threads@,
        newp.condvars@ == oldp.condvars@,
        newp.space == oldp.space,
        newp.pid == oldp.pid,
        newp.priority == oldp.priority,
        class_wf(newp.mutex_cls, newp.threads@.len() as int),
        class_wf(newp.sem_cls, newp.threads@.len() as int),
        newp.mutex_cls.slots@.len() >= oldp.mutex_cls.slots@.len(),
        newp.sem_cls.slots@.len() >= oldp.sem_cls.slots@.len(),
        forall|j: int|
            0 <= j < oldp.mutex_cls.slots@.len() && oldp.mutex_cls.slots@[j] is Some ==> (
            #[trigger] newp.mutex_cls.slots@[j]) is Some,
        forall|j: int|
            0 <= j < oldp.sem_cls.slots@.len() && oldp.sem_cls.slots@[j] is Some ==> (
            #[trigger] newp.sem_cls.slots@[j]) is Some,
        forall|t: int, r: int|
            0 <= t < oldp.threads@.len() && 0 <= r < newp.mutex_cls.slots@.len() ==> (
            #[trigger] newp.mutex_cls.need.deep_view()[t][r]) == (if r
                < oldp.mutex_cls.slots@.len() {
                oldp.mutex_cls.need.deep_view()[t][r]
            } else {
                0
            }),
        forall|t: int, r: int|
            0 <= t < oldp.threads@.len() && 0 <= r < newp.sem_cls.slots@.len() ==> (
            #[trigger] newp.sem_cls.need.deep_view()[t][r]) == (if r < oldp.sem_cls.slots@.len() {
                oldp.sem_cls.need.deep_view()[t][r]
            } else {
                0
            }),
    ensures
        proc_wf(newp),
{
    assert forall|c: int, k: int, r: int|
        0 <= c < newp.condvars@.len() && newp.condvars@[c] is Some && 0 <= k
            < newp.condvars@[c].unwrap().queue@.len() && 0 <= r
            < newp.mutex_cls.slots@.len() implies #[trigger] newp.mutex_cls.need.deep_view()[newp.condvars@[c].unwrap().queue@[k].tid as int][r]
        == 0 by {
        let e = newp.condvars@[c].unwrap().queue@[k];
        assert(oldp.condvars@[c].unwrap().queue@[k] == e);
        if r < oldp.mutex_cls.slots@.len() {
            assert(oldp.mutex_cls.need.deep_view()[e.tid as int][r] == 0);
        }
    }
    assert forall|c: int, k: int, r: int|
        0 <= c < newp.condvars@.len() && newp.condvars@[c] is Some && 0 <= k
            < newp.condvars@[c].unwrap().queue@.len() && 0 <= r
            < newp.sem_cls.slots@.len() implies #[trigger] newp.sem_cls.need.deep_view()[newp.condvars@[c].unwrap().queue@[k].tid as int][r]
        == 0 by {
        let e = newp.condvars@[c].unwrap().queue@[k];
        assert(oldp.condvars@[c].unwrap().queue@[k] == e);
        if r < oldp.sem_cls.slots@.len() {
            assert(oldp.sem_cls.need.deep_view()[e.tid as int][r] == 0);
        }
    }
    assert forall|c: int, k: int|
        0 <= c < newp.condvars@.len() && newp.condvars@[c] is Some && 0 <= k
            < newp.condvars@[c].unwrap().queue@.len() implies {
        let e = (#[trigger] newp.condvars@[c].unwrap().queue@[k]);
        &&& e.tid < newp.threads@.len()
        &&& newp.threads@[e.tid as int] is Some
        &&& newp.threads@[e.tid as int].unwrap().task_status == TaskStatus::Blocked
        &&& e.mutex_id < newp.mutex_cls.slots@.len()
        &&& newp.mutex_cls.slots@[e.mutex_id as int] is Some
    } by {
        let e = newp.condvars@[c].unwrap().queue@[k];
        assert(oldp.condvars@[c].unwrap().queue@[k] == e);
    }
    assert(proc_wf(newp));
}

/// After an acquisition in the mutex class the process invariant still
/// holds: a new unit of need belongs to the now-blocked caller, who had
/// none anywhere before.
proof fn lemma_wf_after_mutex_acquire(oldp: Process, newp: Process, tid: int, id: int, r: isize)
    requires
        proc_wf(oldp),
        thread_running(oldp, tid),
        0 <= id,
        class_wf(newp.mutex_cls, newp.threads@.len() as int),
        newp.threads@.len() == oldp.threads@.len(),
        acquire_outcome(
            oldp.mutex_cls,
            oldp.threads@,
            newp.mutex_cls,
            newp.threads@,
            oldp.deadlock_detect,
            tid,
            id,
            r,
        ),
        mutex_frame(oldp, newp),
    ensures
        proc_wf(newp),
{
    lemma_running_need_zero(oldp, oldp.mutex_cls, tid);
    lemma_running_need_zero(oldp, oldp.sem_cls, tid);
    let n = oldp.threads@.len() as int;
    let ndv = oldp.mutex_cls.need.deep_view();
    if r != 0 || newp.mutex_cls.need.deep_view() == ndv && newp.threads@ == oldp.threads@ {
        assert(proc_wf(newp));
    } else {
        // the blocked case: need cell (tid, id) became 1, the caller blocked
        assert(oldp.mutex_cls.available@[id] == 0);
        let ndv2 = newp.mutex_cls.need.deep_view();
        assert(ndv2 == mat_set(ndv, tid, id, 1));
        assert forall|t: int, r2: int|
            0 <= t < newp.threads@.len() && 0 <= r2 < newp.mutex_cls.slots@.len() && (
            #[trigger] ndv2[t][r2]) >= 1 implies newp.threads@[t] is Some
            && newp.threads@[t].unwrap().task_status == TaskStatus::Blocked by {
            if t == tid {
                assert(newp.threads@[t].unwrap().task_status == TaskStatus::Blocked);
            } else {
                assert(ndv2[t] == ndv[t]);
                assert(newp.threads@[t] == oldp.threads@[t]);
            }
        }
        assert forall|t: int, r2: int|
            0 <= t < newp.threads@.len() && 0 <= r2 < newp.sem_cls.slots@.len() && (
            #[trigger] newp.sem_cls.need.deep_view()[t][r2]) >= 1 implies newp.threads@[t] is Some
            && newp.threads@[t].unwrap().task_status == TaskStatus::Blocked by {
            assert(newp.sem_cls == oldp.sem_cls);
            if t != tid {
                assert(newp.threads@[t] == oldp.threads@[t]);
            }
        }
        assert forall|t: int, r1: int, r2: int|
            0 <= t < n && 0 <= r1 < newp.mutex_cls.slots@.len() && 0 <= r2
                < newp.mutex_cls.slots@.len() && r1 != r2 implies (#[trigger] ndv2[t][r1]) == 0
            || (#[trigger] ndv2[t][r2]) == 0 by {
            if t == tid {
                if r1 != id {
                    assert(ndv2[t][r1] == ndv[t][r1] == 0);
                } else {
                    assert(ndv2[t][r2] == ndv[t][r2] == 0);
                }
            } else {
                assert(ndv2[t] == ndv[t]);
            }
        }
        assert forall|t: int, r1: int, r2: int|
            0 <= t < n && 0 <= r1 < newp.mutex_cls.slots@.len() && 0 <= r2
                < newp.sem_cls.slots@.len() implies (#[trigger] ndv2[t][r1]) == 0 || (
        #[trigger] newp.sem_cls.need.deep_view()[t][r2]) == 0 by {
            if t == tid {
                assert(newp.sem_cls.need.deep_view()[t][r2] == oldp.sem_cls.need.deep_view()[t][r2]
                    == 0);
            } else {
                assert(ndv2[t] == ndv[t]);
            }
        }
        assert forall|c: int, k: int|
            0 <= c < newp.condvars@.len() && newp.condvars@[c] is Some && 0 <= k
                < newp.condvars@[c].unwrap().queue@.len() implies {
            let e = (#[trigger] newp.condvars@[c].unwrap().queue@[k]);
            &&& e.tid < newp.threads@.len()
            &&& newp.threads@[e.tid as int] is Some
            &&& newp.threads@[e.tid as int].unwrap().task_status == TaskStatus::Blocked
            &&& e.mutex_id < newp.mutex_cls.slots@.len()
            &&& newp.mutex_cls.slots@[e.mutex_id as int] is Some
        } by {
            let e = newp.condvars@[c].unwrap().queue@[k];
            assert(oldp.condvars@[c].unwrap().queue@[k] == e);
            assert(oldp.threads@[e.tid as int].unwrap().task_status == TaskStatus::Blocked);
            assert(e.tid != tid);
            assert(newp.threads@[e.tid as int] == oldp.threads@[e.tid as int]);
        }
        assert forall|c: int, k: int, r2: int|
            0 <= c < newp.condvars@.len() && newp.condvars@[c] is Some && 0 <= k
                < newp.condvars@[c].unwrap().queue@.len() && 0 <= r2
                < newp.mutex_cls.slots@.len() implies #[trigger] ndv2[newp.condvars@[c].unwrap().queue@[k].tid as int][r2]
            == 0 by {
            let e = newp.condvars@[c].unwrap().queue@[k];
            assert(oldp.condvars@[c].unwrap().queue@[k] == e);
            assert(oldp.threads@[e.tid as int].unwrap().task_status == TaskStatus::Blocked);
            assert(e.tid != tid);
            assert(ndv2[e.tid as int] == ndv[e.tid as int]);
            assert(oldp.mutex_cls.need.deep_view()[e.tid as int][r2] == 0);
        }
        assert forall|c: int, k: int, r2: int|
            0 <= c < newp.condvars@.len() && newp.condvars@[c] is Some && 0 <= k
                < newp.condvars@[c].unwrap().queue@.len() && 0 <= r2
                < newp.sem_cls.slots@.len() implies #[trigger] newp.sem_cls.need.deep_view()[newp.condvars@[c].unwrap().queue@[k].tid as int][r2]
            == 0 by {
            let e = newp.condvars@[c].unwrap().queue@[k];
            assert(oldp.condvars@[c].unwrap().queue@[k] == e);
            assert(oldp.sem_cls.need.deep_view()[e.tid as int][r2] == 0);
        }
        assert forall|c1: int, k1: int, c2: int, k2: int|
            0 <= c1 < newp.condvars@.len() && newp.condvars@[c1] is Some && 0 <= k1
                < newp.condvars@[c1].unwrap().queue@.len() && 0 <= c2 < newp.condvars@.len()
                && newp.condvars@[c2] is Some && 0 <= k2 < newp.condvars@[c2].unwrap().queue@.len()
                && (c1 != c2 || k1 != k2) implies (
        #[trigger] newp.condvars@[c1].unwrap().queue@[k1]).tid != (
        #[trigger] newp.condvars@[c2].unwrap().queue@[k2]).tid by {
            assert(oldp.condvars@[c1].unwrap().queue@[k1]
                == newp.condvars@[c1].unwrap().queue@[k1]);
            assert(oldp.condvars@[c2].unwrap().queue@[k2]
                == newp.condvars@[c2].unwrap().queue@[k2]);
        }
        assert(proc_wf(newp));
    }
}

/// Acquire mutex `mutex_id` for the calling thread.  Returns -1 for an
/// unknown mutex; with detection enabled, `DEADLOCK_ERR` when granting
/// the request could deadlock (nothing changes then); otherwise 0 —
/// the mutex is taken at once when free, else the thread blocks on it.
pub fn sys_mutex_lock(p: &mut Process, tid: usize, mutex_id: usize) -> (r: isize)
    requires
        proc_wf(*old(p)),
        thread_running(*old(p), tid as int),
    ensures
        proc_wf(*final(p)),
        mutex_frame(*old(p), *final(p)),
        acquire_outcome(
            old(p).mutex_cls,
            old(p).threads@,
            final(p).mutex_cls,
            final(p).threads@,
            old(p).deadlock_detect,
            tid as int,
            mutex_id as int,
            r,
        ),
{
    proof {
        lemma_running_need_zero(*old(p), old(p).mutex_cls, tid as int);
    }
    let detect = p.deadlock_detect;
    let r = p.mutex_cls.class_acquire(&mut p.threads, tid, mutex_id, detect);
    proof {
        lemma_wf_after_mutex_acquire(*old(p), *p, tid as int, mutex_id as int, r);
    }
    r
}

/// After a release in the mutex class the process invariant still
/// holds: the woken waiter (if any) loses its one unit of need, keeps
/// empty need rows elsewhere, and is not parked on a condition
/// variable.
proof fn lemma_wf_after_mutex_release(oldp: Process, newp: Process, tid: int, id: int, r: isize)
    requires
        proc_wf(oldp),
        0 <= tid < oldp.threads@.len(),
        0 <= id,
        class_wf(newp.mutex_cls, newp.threads@.len() as int),
        newp.threads@.len() == oldp.threads@.len(),
        release_outcome(
            oldp.mutex_cls,
            oldp.threads@,
            newp.mutex_cls,
            newp.threads@,
            tid,
            id,
            r,
        ),
        mutex_frame(oldp, newp),
    ensures
        proc_wf(newp),
{
    let n = oldp.threads@.len() as int;
    let ndv = oldp.mutex_cls.need.deep_view();
    if r != 0 {
        assert(proc_wf(newp));
    } else if !(exists|w: int| 0 <= w < n && (#[trigger] ndv[w])[id] >= 1) {
        assert(newp.mutex_cls.need.deep_view() == ndv && newp.threads@ == oldp.threads@);
        assert(proc_wf(newp));
    } else {
        let w = choose|w: int|
            {
                &&& 0 <= w < n
                &&& (#[trigger] ndv[w])[id] >= 1
                &&& (forall|w2: int| 0 <= w2 < w ==> ndv[w2][id] == 0)
                &&& newp.mutex_cls.need.deep_view() == mat_set(
                    ndv,
                    w,
                    id,
                    (ndv[w][id] - 1) as usize,
                )
                &&& newp.threads@ == oldp.threads@.update(
                    w,
                    Some(
                        (TaskControlBlock {
                            task_status: TaskStatus::Ready,
                            ..oldp.threads@[w].unwrap()
                        }),
                    ),
                )
            };
        let ndv2 = newp.mutex_cls.need.deep_view();
        assert forall|t: int, r2: int|
            0 <= t < newp.threads@.len() && 0 <= r2 < newp.mutex_cls.slots@.len() && (
            #[trigger] ndv2[t][r2]) >= 1 implies newp.threads@[t] is Some
            && newp.threads@[t].unwrap().task_status == TaskStatus::Blocked by {
            if t == w {
                assert(ndv2[t] == ndv[t].update(id, (ndv[w][id] - 1) as usize));
                assert(r2 != id ==> ndv[t][r2] >= 1);
                // the waiter's only unit of need was on this slot
                assert(ndv[t][id] >= 1);
                assert(r2 != id ==> (ndv[t][r2] == 0 || ndv[t][id] == 0));
                assert(r2 == id ==> ndv2[t][r2] == ndv[w][id] - 1);
                assert(ndv[w][id] <= 1);
                assert(false);
            } else {
                assert(ndv2[t] == ndv[t]);
                assert(newp.threads@[t] == oldp.threads@[t]);
            }
        }
        assert forall|t: int, r2: int|
            0 <= t < newp.threads@.len() && 0 <= r2 < newp.sem_cls.slots@.len() && (
            #[trigger] newp.sem_cls.need.deep_view()[t][r2]) >= 1 implies newp.threads@[t] is Some
            && newp.threads@[t].unwrap().task_status == TaskStatus::Blocked by {
            assert(newp.sem_cls == oldp.sem_cls);
            if t == w {
                assert(oldp.sem_cls.need.deep_view()[t][r2] == 0 || ndv[w][id] == 0);
                assert(false);
            } else {
                assert(newp.threads@[t] == oldp.threads@[t]);
            }
        }
        assert forall|t: int, r1: int, r2: int|
            0 <= t < n && 0 <= r1 < newp.mutex_cls.slots@.len() && 0 <= r2
                < newp.mutex_cls.slots@.len() && r1 != r2 implies (#[trigger] ndv2[t][r1]) == 0
            || (#[trigger] ndv2[t][r2]) == 0 by {
            if t == w {
                assert(ndv2[t][r1] <= ndv[t][r1] && ndv2[t][r2] <= ndv[t][r2]);
                assert(ndv[t][r1] == 0 || ndv[t][r2] == 0);
            } else {
                assert(ndv2[t] == ndv[t]);
            }
        }
        assert forall|t: int, r1: int, r2: int|
            0 <= t < n && 0 <= r1 < newp.mutex_cls.slots@.len() && 0 <= r2
                < newp.sem_cls.slots@.len() implies (#[trigger] ndv2[t][r1]) == 0 || (
        #[trigger] newp.sem_cls.need.deep_view()[t][r2]) == 0 by {
            if t == w {
                assert(ndv2[t][r1] <= ndv[t][r1]);
                assert(ndv[t][r1] == 0 || oldp.sem_cls.need.deep_view()[t][r2] == 0);
            } else {
                assert(ndv2[t] == ndv[t]);
            }
        }
        assert forall|c: int, k: int|
            0 <= c < newp.condvars@.len() && newp.condvars@[c] is Some && 0 <= k
                < newp.condvars@[c].unwrap().queue@.len() implies {
            let e = (#[trigger] newp.condvars@[c].unwrap().queue@[k]);
            &&& e.tid < newp.threads@.len()
            &&& newp.threads@[e.tid as int] is Some
            &&& newp.threads@[e.tid as int].unwrap().task_status == TaskStatus::Blocked
            &&& e.mutex_id < newp.mutex_cls.slots@.len()
            &&& newp.mutex_cls.slots@[e.mutex_id as int] is Some
        } by {
            let e = newp.condvars@[c].unwrap().queue@[k];
            assert(oldp.condvars@[c].unwrap().queue@[k] == e);
            assert(oldp.mutex_cls.need.deep_view()[e.tid as int][id] == 0);
            assert(e.tid != w);
            assert(newp.threads@[e.tid as int] == oldp.threads@[e.tid as int]);
        }
        assert forall|c: int, k: int, r2: int|
            0 <= c < newp.condvars@.len() && newp.condvars@[c] is Some && 0 <= k
                < newp.condvars@[c].unwrap().queue@.len() && 0 <= r2
                < newp.mutex_cls.slots@.len() implies #[trigger] ndv2[newp.condvars@[c].unwrap().queue@[k].tid as int][r2]
            == 0 by {
            let e = newp.condvars@[c].unwrap().queue@[k];
            assert(oldp.condvars@[c].unwrap().queue@[k] == e);
            assert(oldp.mutex_cls.need.deep_view()[e.tid as int][id] == 0);
            assert(e.tid != w);
            assert(ndv2[e.tid as int] == ndv[e.tid as int]);
            assert(oldp.mutex_cls.need.deep_view()[e.tid as int][r2] == 0);
        }
        assert forall|c: int, k: int, r2: int|
            0 <= c < newp.condvars@.len() && newp.condvars@[c] is Some && 0 <= k
                < newp.condvars@[c].unwrap().queue@.len() && 0 <= r2
                < newp.sem_cls.slots@.len() implies #[trigger] newp.sem_cls.need.deep_view()[newp.condvars@[c].unwrap().queue@[k].tid as int][r2]
            == 0 by {
            let e = newp.condvars@[c].unwrap().queue@[k];
            assert(oldp.condvars@[c].unwrap().queue@[k] == e);
            assert(oldp.sem_cls.need.deep_view()[e.tid as int][r2] == 0);
        }
        assert forall|c1: int, k1: int, c2: int, k2: int|
            0 <= c1 < newp.condvars@.len() && newp.condvars@[c1] is Some && 0 <= k1
                < newp.condvars@[c1].unwrap().queue@.len() && 0 <= c2 < newp.condvars@.len()
                && newp.condvars@[c2] is Some && 0 <= k2 < newp.condvars@[c2].unwrap().queue@.len()
                && (c1 != c2 || k1 != k2) implies (
        #[trigger] newp.condvars@[c1].unwrap().queue@[k1]).tid != (
        #[trigger] newp.condvars@[c2].unwrap().queue@[k2]).tid by {
            assert(oldp.condvars@[c1].unwrap().queue@[k1]
                == newp.condvars@[c1].unwrap().queue@[k1]);
            assert(oldp.condvars@[c2].unwrap().queue@[k2]
                == newp.condvars@[c2].unwrap().queue@[k2]);
        }
        assert(proc_wf(newp));
    }
}

/// Release mutex `mutex_id` from the calling thread.  Returns -1 for an
/// unknown mutex or one the thread does not hold; otherwise 0, the
/// mutex passing to its longest-parked waiter (which wakes) or back to
/// the free state.  A release needs no safety check.
pub fn sys_mutex_unlock(p: &mut Process, tid: usize, mutex_id: usize) -> (r: isize)
    requires
        proc_wf(*old(p)),
        thread_running(*old(p), tid as int),
    ensures
        proc_wf(*final(p)),
        mutex_frame(*old(p), *final(p)),
        release_outcome(
            old(p).mutex_cls,
            old(p).threads@,
            final(p).mutex_cls,
            final(p).threads@,
            tid as int,
            mutex_id as int,
            r,
        ),
{
    let r = p.mutex_cls.class_release(&mut p.threads, tid, mutex_id);
    proof {
        lemma_wf_after_mutex_release(*old(p), *p, tid as int, mutex_id as int, r);
    }
    r
}

/// After an acquisition in the semaphore class the process invariant
/// still holds; mirror of the mutex case.
proof fn lemma_wf_after_sem_acquire(oldp: Process, newp: Process, tid: int, id: int, r: isize)
    requires
        proc_wf(oldp),
        thread_running(oldp, tid),
        0 <= id,
        class_wf(newp.sem_cls, newp.threads@.len() as int),
        newp.threads@.len() == oldp.threads@.len(),
        acquire_outcome(
            oldp.sem_cls,
            oldp.threads@,
            newp.sem_cls,
            newp.threads@,
            oldp.deadlock_detect,
            tid,
            id,
            r,
        ),
        sem_frame(oldp, newp),
    ensures
        proc_wf(newp),
{
    lemma_running_need_zero(oldp, oldp.mutex_cls, tid);
    lemma_running_need_zero(oldp, oldp.sem_cls, tid);
    let n = oldp.threads@.len() as int;
    let ndv = oldp.sem_cls.need.deep_view();
    if r != 0 || newp.sem_cls.need.deep_view() == ndv && newp.threads@ == oldp.threads@ {
        assert(proc_wf(newp));
    } else {
        assert(oldp.sem_cls.available@[id] == 0);
        let ndv2 = newp.sem_cls.need.deep_view();
        assert(ndv2 == mat_set(ndv, tid, id, 1));
        assert forall|t: int, r2: int|
            0 <= t < newp.threads@.len() && 0 <= r2 < newp.sem_cls.slots@.len() && (
            #[trigger] ndv2[t][r2]) >= 1 implies newp.threads@[t] is Some
            && newp.threads@[t].unwrap().task_status == TaskStatus::Blocked by {
            if t == tid {
                assert(newp.threads@[t].unwrap().task_status == TaskStatus::Blocked);
            } else {
                assert(ndv2[t] == ndv[t]);
                assert(newp.threads@[t] == oldp.threads@[t]);
            }
        }
        assert forall|t: int, r2: int|
            0 <= t < newp.threads@.len() && 0 <= r2 < newp.mutex_cls.slots@.len() && (
            #[trigger] newp.mutex_cls.need.deep_view()[t][r2]) >= 1 implies newp.threads@[t] is Some
            && newp.threads@[t].unwrap().task_status == TaskStatus::Blocked by {
            assert(newp.mutex_cls == oldp.mutex_cls);
            if t != tid {
                assert(newp.threads@[t] == oldp.threads@[t]);
            }
        }
        assert forall|t: int, r1: int, r2: int|
            0 <= t < n && 0 <= r1 < newp.sem_cls.slots@.len() && 0 <= r2
                < newp.sem_cls.slots@.len() && r1 != r2 implies (#[trigger] ndv2[t][r1]) == 0 || (
        #[trigger] ndv2[t][r2]) == 0 by {
            if t == tid {
                if r1 != id {
                    assert(ndv2[t][r1] == ndv[t][r1] == 0);
                } else {
                    assert(ndv2[t][r2] == ndv[t][r2] == 0);
                }
            } else {
                assert(ndv2[t] == ndv[t]);
            }
        }
        assert forall|t: int, r1: int, r2: int|
            0 <= t < n && 0 <= r1 < newp.mutex_cls.slots@.len() && 0 <= r2
                < newp.sem_cls.slots@.len() implies (
        #[trigger] newp.mutex_cls.need.deep_view()[t][r1]) == 0 || (#[trigger] ndv2[t][r2])
            == 0 by {
            if t == tid {
                assert(newp.mutex_cls.need.deep_view()[t][r1] == oldp.mutex_cls.need.deep_view()[t][r1]
                    == 0);
            } else {
                assert(ndv2[t] == ndv[t]);
            }
        }
        assert forall|c: int, k: int|
            0 <= c < newp.condvars@.len() && newp.condvars@[c] is Some && 0 <= k
                < newp.condvars@[c].unwrap().queue@.len() implies {
            let e = (#[trigger] newp.condvars@[c].unwrap().queue@[k]);
            &&& e.tid < newp.threads@.len()
            &&& newp.threads@[e.tid as int] is Some
            &&& newp.threads@[e.tid as int].unwrap().task_status == TaskStatus::Blocked
            &&& e.mutex_id < newp.mutex_cls.slots@.len()
            &&& newp.mutex_cls.slots@[e.mutex_id as int] is Some
        } by {
            let e = newp.condvars@[c].unwrap().queue@[k];
            assert(oldp.condvars@[c].unwrap().queue@[k] == e);
            assert(oldp.threads@[e.tid as int].unwrap().task_status == TaskStatus::Blocked);
            assert(e.tid != tid);
            assert(newp.threads@[e.tid as int] == oldp.threads@[e.tid as int]);
        }
        assert forall|c: int, k: int, r2: int|
            0 <= c < newp.condvars@.len() && newp.condvars@[c] is Some && 0 <= k
                < newp.condvars@[c].unwrap().queue@.len() && 0 <= r2
                < newp.sem_cls.slots@.len() implies #[trigger] ndv2[newp.condvars@[c].unwrap().queue@[k].tid as int][r2]
            == 0 by {
            let e = newp.condvars@[c].unwrap().queue@[k];
            assert(oldp.condvars@[c].unwrap().queue@[k] == e);
            assert(oldp.threads@[e.tid as int].unwrap().task_status == TaskStatus::Blocked);
            assert(e.tid != tid);
            assert(ndv2[e.tid as int] == ndv[e.tid as int]);
            assert(oldp.sem_cls.need.deep_view()[e.tid as int][r2] == 0);
        }
        assert forall|c: int, k: int, r2: int|
            0 <= c < newp.condvars@.len() && newp.condvars@[c] is Some && 0 <= k
                < newp.condvars@[c].unwrap().queue@.len() && 0 <= r2
                < newp.mutex_cls.slots@.len() implies #[trigger] newp.mutex_cls.need.deep_view()[newp.condvars@[c].unwrap().queue@[k].tid as int][r2]
            == 0 by {
            let e = newp.condvars@[c].unwrap().queue@[k];
            assert(oldp.condvars@[c].unwrap().queue@[k] == e);
            assert(oldp.mutex_cls.need.deep_view()[e.tid as int][r2] == 0);
        }
        assert forall|c1: int, k1: int, c2: int, k2: int|
            0 <= c1 < newp.condvars@.len() && newp.condvars@[c1] is Some && 0 <= k1
                < newp.condvars@[c1].unwrap().queue@.len() && 0 <= c2 < newp.condvars@.len()
                && newp.condvars@[c2] is Some && 0 <= k2 < newp.condvars@[c2].unwrap().queue@.len()
                && (c1 != c2 || k1 != k2) implies (
        #[trigger] newp.condvars@[c1].unwrap().queue@[k1]).tid != (
        #[trigger] newp.condvars@[c2].unwrap().queue@[k2]).tid by {
            assert(oldp.condvars@[c1].unwrap().queue@[k1]
                == newp.condvars@[c1].unwrap().queue@[k1]);
            assert(oldp.condvars@[c2].unwrap().queue@[k2]
                == newp.condvars@[c2].unwrap().queue@[k2]);
        }
        assert(proc_wf(newp));
    }
}

/// Take one unit of semaphore `sem_id` for the calling thread.  Returns
/// -1 for an unknown semaphore; with detection enabled, `DEADLOCK_ERR`
/// when granting the request could deadlock (nothing changes then);
/// otherwise 0 — a unit is taken at once when free, else the thread
/// blocks on the semaphore.
pub fn sys_semaphore_down(p: &mut Process, tid: usize, sem_id: usize) -> (r: isize)
    requires
        proc_wf(*old(p)),
        thread_running(*old(p), tid as int),
    ensures
        proc_wf(*final(p)),
        sem_frame(*old(p), *final(p)),
        acquire_outcome(
            old(p).sem_cls,
            old(p).threads@,
            final(p).sem_cls,
            final(p).threads@,
            old(p).deadlock_detect,
            tid as int,
            sem_id as int,
            r,
        ),
{
    proof {
        lemma_running_need_zero(*old(p), old(p).sem_cls, tid as int);
    }
    let detect = p.deadlock_detect;
    let r = p.sem_cls.class_acquire(&mut p.threads, tid, sem_id, detect);
    proof {
        lemma_wf_after_sem_acquire(*old(p), *p, tid as int, sem_id as int, r);
    }
    r
}

/// After a release in the semaphore class the process invariant still
/// holds; mirror of the mutex case.
proof fn lemma_wf_after_sem_release(oldp: Process, newp: Process, tid: int, id: int, r: isize)
    requires
        proc_wf(oldp),
        0 <= tid < oldp.threads@.len(),
        0 <= id,
        class_wf(newp.sem_cls, newp.threads@.len() as int),
        newp.threads@.len() == oldp.threads@.len(),
        release_outcome(oldp.sem_cls, oldp.threads@, newp.sem_cls, newp.threads@, tid, id, r),
        sem_frame(oldp, newp),
    ensures
        proc_wf(newp),
{
    let n = oldp.threads@.len() as int;
    let ndv = oldp.sem_cls.need.deep_view();
    if r != 0 {
        assert(proc_wf(newp));
    } else if !(exists|w: int| 0 <= w < n && (#[trigger] ndv[w])[id] >= 1) {
        assert(newp.sem_cls.need.deep_view() == ndv && newp.threads@ == oldp.threads@);
        assert(proc_wf(newp));
    } else {
        let w = choose|w: int|
            {
                &&& 0 <= w < n
                &&& (#[trigger] ndv[w])[id] >= 1
                &&& (forall|w2: int| 0 <= w2 < w ==> ndv[w2][id] == 0)
                &&& newp.sem_cls.need.deep_view() == mat_set(ndv, w, id, (ndv[w][id] - 1) as usize)
                &&& newp.threads@ == oldp.threads@.update(
                    w,
                    Some(
                        (TaskControlBlock {
                            task_status: TaskStatus::Ready,
                            ..oldp.threads@[w].unwrap()
                        }),
                    ),
                )
            };
        let ndv2 = newp.sem_cls.need.deep_view();
        assert forall|t: int, r2: int|
            0 <= t < newp.threads@.len() && 0 <= r2 < newp.sem_cls.slots@.len() && (
            #[trigger] ndv2[t][r2]) >= 1 implies newp.threads@[t] is Some
            && newp.threads@[t].unwrap().task_status == TaskStatus::Blocked by {
            if t == w {
                assert(ndv2[t] == ndv[t].update(id, (ndv[w][id] - 1) as usize));
                assert(r2 != id ==> (ndv[t][r2] == 0 || ndv[t][id] == 0));
                assert(ndv[w][id] <= 1);
                assert(false);
            } else {
                assert(ndv2[t] == ndv[t]);
                assert(newp.threads@[t] == oldp.threads@[t]);
            }
        }
        assert forall|t: int, r2: int|
            0 <= t < newp.threads@.len() && 0 <= r2 < newp.mutex_cls.slots@.len() && (
            #[trigger] newp.mutex_cls.need.deep_view()[t][r2]) >= 1 implies newp.threads@[t] is Some
            && newp.threads@[t].unwrap().task_status == TaskStatus::Blocked by {
            assert(newp.mutex_cls == oldp.mutex_cls);
            if t == w {
                assert(oldp.mutex_cls.need.deep_view()[t][r2] == 0 || ndv[w][id] == 0);
                assert(false);
            } else {
                assert(newp.threads@[t] == oldp.threads@[t]);
            }
        }
        assert forall|t: int, r1: int, r2: int|
            0 <= t < n && 0 <= r1 < newp.sem_cls.slots@.len() && 0 <= r2
                < newp.sem_cls.slots@.len() && r1 != r2 implies (#[trigger] ndv2[t][r1]) == 0 || (
        #[trigger] ndv2[t][r2]) == 0 by {
            if t == w {
                assert(ndv2[t][r1] <= ndv[t][r1] && ndv2[t][r2] <= ndv[t][r2]);
                assert(ndv[t][r1] == 0 || ndv[t][r2] == 0);
            } else {
                assert(ndv2[t] == ndv[t]);
            }
        }
        assert forall|t: int, r1: int, r2: int|
            0 <= t < n && 0 <= r1 < newp.mutex_cls.slots@.len() && 0 <= r2
                < newp.sem_cls.slots@.len() implies (
        #[trigger] newp.mutex_cls.need.deep_view()[t][r1]) == 0 || (#[trigger] ndv2[t][r2])
            == 0 by {
            if t == w {
                assert(ndv2[t][r2] <= ndv[t][r2]);
                assert(oldp.mutex_cls.need.deep_view()[t][r1] == 0 || ndv[t][r2] == 0);
            } else {
                assert(ndv2[t] == ndv[t]);
            }
        }
        assert forall|c: int, k: int|
            0 <= c < newp.condvars@.len() && newp.condvars@[c] is Some && 0 <= k
                < newp.condvars@[c].unwrap().queue@.len() implies {
            let e = (#[trigger] newp.condvars@[c].unwrap().queue@[k]);
            &&& e.tid < newp.threads@.len()
            &&& newp.threads@[e.tid as int] is Some
            &&& newp.threads@[e.tid as int].unwrap().task_status == TaskStatus::Blocked
            &&& e.mutex_id < newp.mutex_cls.slots@.len()
            &&& newp.mutex_cls.slots@[e.mutex_id as int] is Some
        } by {
            let e = newp.condvars@[c].unwrap().queue@[k];
            assert(oldp.condvars@[c].unwrap().queue@[k] == e);
            assert(oldp.sem_cls.need.deep_view()[e.tid as int][id] == 0);
            assert(e.tid != w);
            assert(newp.threads@[e.tid as int] == oldp.threads@[e.tid as int]);
        }
        assert forall|c: int, k: int, r2: int|
            0 <= c < newp.condvars@.len() && newp.condvars@[c] is Some && 0 <= k
                < newp.condvars@[c].unwrap().queue@.len() && 0 <= r2
                < newp.sem_cls.slots@.len() implies #[trigger] ndv2[newp.condvars@[c].unwrap().queue@[k].tid as int][r2]
            == 0 by {
            let e = newp.condvars@[c].unwrap().queue@[k];
            assert(oldp.condvars@[c].unwrap().queue@[k] == e);
            assert(oldp.sem_cls.need.deep_view()[e.tid as int][id] == 0);
            assert(e.tid != w);
            assert(ndv2[e.tid as int] == ndv[e.tid as int]);
            assert(oldp.sem_cls.need.deep_view()[e.tid as int][r2] == 0);
        }
        assert forall|c: int, k: int, r2: int|
            0 <= c < newp.condvars@.len() && newp.condvars@[c] is Some && 0 <= k
                < newp.condvars@[c].unwrap().queue@.len() && 0 <= r2
                < newp.mutex_cls.slots@.len() implies #[trigger] newp.mutex_cls.need.deep_view()[newp.condvars@[c].unwrap().queue@[k].tid as int][r2]
            == 0 by {
            let e = newp.condvars@[c].unwrap().queue@[k];
            assert(oldp.condvars@[c].unwrap().queue@[k] == e);
            assert(oldp.mutex_cls.need.deep_view()[e.tid as int][r2] == 0);
        }
        assert forall|c1: int, k1: int, c2: int, k2: int|
            0 <= c1 < newp.condvars@.len() && newp.condvars@[c1] is Some && 0 <= k1
                < newp.condvars@[c1].unwrap().queue@.len() && 0 <= c2 < newp.condvars@.len()
                && newp.condvars@[c2] is Some && 0 <= k2 < newp.condvars@[c2].unwrap().queue@.len()
                && (c1 != c2 || k1 != k2) implies (
        #[trigger] newp.condvars@[c1].unwrap().queue@[k1]).tid != (
        #[trigger] newp.condvars@[c2].unwrap().queue@[k2]).tid by {
            assert(oldp.condvars@[c1].unwrap().queue@[k1]
                == newp.condvars@[c1].unwrap().queue@[k1]);
            assert(oldp.condvars@[c2].unwrap().queue@[k2]
                == newp.condvars@[c2].unwrap().queue@[k2]);
        }
        assert(proc_wf(newp));
    }
}

/// Give one unit of semaphore `sem_id` back from the calling thread.
/// Returns -1 for an unknown semaphore or a unit the thread does not
/// hold; otherwise 0, the unit passing to the longest-parked waiter
/// (which wakes) or back to the count.  A release needs no safety
/// check.
pub fn sys_semaphore_up(p: &mut Process, tid: usize, sem_id: usize) -> (r: isize)
    requires
        proc_wf(*old(p)),
        thread_running(*old(p), tid as int),
    ensures
        proc_wf(*final(p)),
        sem_frame(*old(p), *final(p)),
        release_outcome(
            old(p).sem_cls,
            old(p).threads@,
            final(p).sem_cls,
            final(p).threads@,
            tid as int,
            sem_id as int,
            r,
        ),
{
    let r = p.sem_cls.class_release(&mut p.threads, tid, sem_id);
    proof {
        lemma_wf_after_sem_release(*old(p), *p, tid as int, sem_id as int, r);
    }
    r
}

/// Turn deadlock detection for the calling process on (1) or off (any
/// other value).  Always reports 0.
pub fn sys_enable_deadlock_detect(p: &mut Process, enabled: usize) -> (r: isize)
    requires
        proc_wf(*old(p)),
    ensures
        proc_wf(*final(p)),
        r == 0,
        final(p).deadlock_detect == (enabled == 1),
        *final(p) == (Process { deadlock_detect: enabled == 1, ..*old(p) }),
{
    if enabled == 1 {
        p.deadlock_detect = true;
    } else {
        p.deadlock_detect = false;
    }
    proof {
        assert(proc_wf(*p));
    }
    0
}

/// Park the calling thread until the external timer fires: record the
/// absolute wake-up time (`now_ms + ms`) in its control block and block
/// it.  Always reports 0.
pub fn sys_sleep(p: &mut Process, tid: usize, ms: usize, now_ms: usize) -> (r: isize)
    requires
        proc_wf(*old(p)),
        thread_running(*old(p), tid as int),
        now_ms + ms <= usize::MAX,
    ensures
        proc_wf(*final(p)),
        r == 0,
        final(p).threads@ == old(p).threads@.update(
            tid as int,
            Some(
                (TaskControlBlock {
                    task_status: TaskStatus::Blocked,
                    timer: (now_ms + ms) as usize,
                    ..old(p).threads@[tid as int].unwrap()
                }),
            ),
        ),
        *final(p) == (Process { threads: final(p).threads, ..*old(p) }),
{
    proof {
        lemma_running_need_zero(*old(p), old(p).mutex_cls, tid as int);
        lemma_running_need_zero(*old(p), old(p).sem_cls, tid as int);
    }
    let expire = now_ms + ms;
    match &mut p.threads[tid] {
        Some(tc) => {
            tc.task_status = TaskStatus::Blocked;
            tc.timer = expire;
        },
        None => {},
    }
    proof {
        let newp = *p;
        let oldp = *old(p);
        assert(newp.threads@ =~= oldp.threads@.update(
            tid as int,
            Some(
                (TaskControlBlock {
                    task_status: TaskStatus::Blocked,
                    timer: expire,
                    ..oldp.threads@[tid as int].unwrap()
                }),
            ),
        ));
        assert forall|c: int, k: int|
            0 <= c < newp.condvars@.len() && newp.condvars@[c] is Some && 0 <= k
                < newp.condvars@[c].unwrap().queue@.len() implies {
            let e = (#[trigger] newp.condvars@[c].unwrap().queue@[k]);
            &&& e.tid < newp.threads@.len()
            &&& newp.threads@[e.tid as int] is Some
            &&& newp.threads@[e.tid as int].unwrap().task_status == TaskStatus::Blocked
            &&& e.mutex_id < newp.mutex_cls.slots@.len()
            &&& newp.mutex_cls.slots@[e.mutex_id as int] is Some
        } by {
            let e = newp.condvars@[c].unwrap().queue@[k];
            assert(oldp.condvars@[c].unwrap().queue@[k] == e);
            if e.tid as int != tid as int {
                assert(newp.threads@[e.tid as int] == oldp.threads@[e.tid as int]);
            }
        }
        assert forall|t: int, r2: int|
            0 <= t < newp.threads@.len() && 0 <= r2 < newp.mutex_cls.slots@.len() && (
            #[trigger] newp.mutex_cls.need.deep_view()[t][r2]) >= 1 implies newp.threads@[t] is Some
            && newp.threads@[t].unwrap().task_status == TaskStatus::Blocked by {
            if t != tid {
                assert(newp.threads@[t] == oldp.threads@[t]);
            }
        }
        assert forall|t: int, r2: int|
            0 <= t < newp.threads@.len() && 0 <= r2 < newp.sem_cls.slots@.len() && (
            #[trigger] newp.sem_cls.need.deep_view()[t][r2]) >= 1 implies newp.threads@[t] is Some
            && newp.threads@[t].unwrap().task_status == TaskStatus::Blocked by {
            if t != tid {
                assert(newp.threads@[t] == oldp.threads@[t]);
            }
        }
        assert(proc_wf(newp));
    }
    0
}

/// Create a condition variable for the calling process, reusing the
/// first empty slot or appending a new one.  Returns the slot id.
pub fn sys_condvar_create(p: &mut Process) -> (r: isize)
    requires
        proc_wf(*old(p)),
        old(p).condvars@.len() < ID_LIMIT,
    ensures
        proc_wf(*final(p)),
        r >= 0,
        (r as int) < final(p).condvars@.len(),
        final(p).condvars@[r as int] is Some,
        final(p).condvars@[r as int].unwrap().queue@.len() == 0,
        final(p).threads@ == old(p).threads@,
        final(p).mutex_cls == old(p).mutex_cls,
        final(p).sem_cls == old(p).sem_cls,
        final(p).space == old(p).space,
        final(p).children@ == old(p).children@,
        ((exists|j: int| 0 <= j < old(p).condvars@.len() && old(p).condvars@[j] is None)
            ==> final(p).condvars@.len() == old(p).condvars@.len() && old(p).condvars@[r as int] is None && (forall|j: int|
            0 <= j < r ==> old(p).condvars@[j] is Some) && (forall|j: int|
            0 <= j < final(p).condvars@.len() && j != r ==> final(p).condvars@[j] == old(p).condvars@[j])),
        (!(exists|j: int| 0 <= j < old(p).condvars@.len() && old(p).condvars@[j] is None)
            ==> r == old(p).condvars@.len() && final(p).condvars@.len() == old(p).condvars@.len()
            + 1 && (forall|j: int|
            0 <= j < old(p).condvars@.len() ==> final(p).condvars@[j] == old(p).condvars@[j])),
{
    let cols = p.condvars.len();
    let mut free: Option<usize> = None;
    let mut j: usize = 0;
    while j < cols
        invariant
            j <= cols,
            cols == p.condvars@.len(),
            p == old(p),
            match free {
                Some(f) => 0 <= f < cols && p.condvars@[f as int] is None && forall|j2: int|
                    0 <= j2 < f ==> p.condvars@[j2] is Some,
                None => forall|j2: int| 0 <= j2 < j ==> p.condvars@[j2] is Some,
            },
        decreases cols - j,
    {
        if free.is_none() && p.condvars[j].is_none() {
            free = Some(j);
            j = cols;
        } else {
            j = j + 1;
        }
    }
    let id: usize = match free {
        Some(f) => {
            p.condvars[f] = Some(CondvarObj { queue: Vec::new() });
            f
        },
        None => {
            p.condvars.push(Some(CondvarObj { queue: Vec::new() }));
            cols
        },
    };
    proof {
        let newp = *p;
        let oldp = *old(p);
        assert forall|c: int, k: int|
            0 <= c < newp.condvars@.len() && newp.condvars@[c] is Some && 0 <= k
                < newp.condvars@[c].unwrap().queue@.len() implies {
            let e = (#[trigger] newp.condvars@[c].unwrap().queue@[k]);
            &&& e.tid < newp.threads@.len()
            &&& newp.threads@[e.tid as int] is Some
            &&& newp.threads@[e.tid as int].unwrap().task_status == TaskStatus::Blocked
            &&& e.mutex_id < newp.mutex_cls.slots@.len()
            &&& newp.mutex_cls.slots@[e.mutex_id as int] is Some
        } by {
            assert(c != id);
            assert(newp.condvars@[c] == oldp.condvars@[c]);
        }
        assert forall|c: int, k: int, r2: int|
            0 <= c < newp.condvars@.len() && newp.condvars@[c] is Some && 0 <= k
                < newp.condvars@[c].unwrap().queue@.len() && 0 <= r2
                < newp.mutex_cls.slots@.len() implies #[trigger] newp.mutex_cls.need.deep_view()[newp.condvars@[c].unwrap().queue@[k].tid as int][r2]
            == 0 by {
            assert(c != id);
            assert(newp.condvars@[c] == oldp.condvars@[c]);
            let e = newp.condvars@[c].unwrap().queue@[k];
            assert(oldp.mutex_cls.need.deep_view()[e.tid as int][r2] == 0);
        }
        assert forall|c: int, k: int, r2: int|
            0 <= c < newp.condvars@.len() && newp.condvars@[c] is Some && 0 <= k
                < newp.condvars@[c].unwrap().queue@.len() && 0 <= r2
                < newp.sem_cls.slots@.len() implies #[trigger] newp.sem_cls.need.deep_view()[newp.condvars@[c].unwrap().queue@[k].tid as int][r2]
            == 0 by {
            assert(c != id);
            assert(newp.condvars@[c] == oldp.condvars@[c]);
            let e = newp.condvars@[c].unwrap().queue@[k];
            assert(oldp.sem_cls.need.deep_view()[e.tid as int][r2] == 0);
        }
        assert forall|c1: int, k1: int, c2: int, k2: int|
            0 <= c1 < newp.condvars@.len() && newp.condvars@[c1] is Some && 0 <= k1
                < newp.condvars@[c1].unwrap().queue@.len() && 0 <= c2 < newp.condvars@.len()
                && newp.condvars@[c2] is Some && 0 <= k2 < newp.condvars@[c2].unwrap().queue@.len()
                && (c1 != c2 || k1 != k2) implies (
        #[trigger] newp.condvars@[c1].unwrap().queue@[k1]).tid != (
        #[trigger] newp.condvars@[c2].unwrap().queue@[k2]).tid by {
            assert(c1 != id && c2 != id);
            assert(newp.condvars@[c1] == oldp.condvars@[c1]);
            assert(newp.condvars@[c2] == oldp.condvars@[c2]);
        }
        assert(proc_wf(newp));
    }
    id as isize
}

/// After a signal popped the head waiter `e` off condition variable
/// `cid` and handed it the mutex (or parked it there), the process
/// invariant still holds.
#[verifier::rlimit(100)]
proof fn lemma_wf_after_signal(oldp: Process, newp: Process, cid: int, e: CondWaiter)
    requires
        proc_wf(oldp),
        0 <= cid < oldp.condvars@.len(),
        oldp.condvars@[cid] is Some,
        oldp.condvars@[cid].unwrap().queue@.len() > 0,
        e == oldp.condvars@[cid].unwrap().queue@[0],
        newp.condvars@.len() == oldp.condvars@.len(),
        newp.condvars@[cid] is Some,
        newp.condvars@[cid].unwrap().queue@ == oldp.condvars@[cid].unwrap().queue@.remove(0),
        forall|c: int|
            0 <= c < newp.condvars@.len() && c != cid ==> (#[trigger] newp.condvars@[c]) == oldp.condvars@[c],
        class_wf(newp.mutex_cls, newp.threads@.len() as int),
        newp.threads@.len() == oldp.threads@.len(),
        newp.sem_cls == oldp.sem_cls,
        newp.space == oldp.space,
        newp.pid == oldp.pid,
        newp.priority == oldp.priority,
        grant_outcome(
            oldp.mutex_cls,
            oldp.threads@,
            newp.mutex_cls,
            newp.threads@,
            e.tid as int,
            e.mutex_id as int,
        ),
    ensures
        proc_wf(newp),
{
    let n = oldp.threads@.len() as int;
    let ndv = oldp.mutex_cls.need.deep_view();
    let ndv2 = newp.mutex_cls.need.deep_view();
    let oldq = oldp.condvars@[cid].unwrap().queue@;
    let tid = e.tid as int;
    let id = e.mutex_id as int;
    // the popped waiter held no pending request anywhere
    assert(forall|r2: int| 0 <= r2 < oldp.mutex_cls.slots@.len() ==> #[trigger] ndv[tid][r2] == 0);
    assert(forall|r2: int|
        0 <= r2 < oldp.sem_cls.slots@.len()
            ==> #[trigger] oldp.sem_cls.need.deep_view()[tid][r2] == 0);
    // new entries are the old ones, shifted or untouched, so none is the waiter
    assert forall|c: int, k: int|
        0 <= c < newp.condvars@.len() && newp.condvars@[c] is Some && 0 <= k
            < newp.condvars@[c].unwrap().queue@.len() implies (
    #[trigger] newp.condvars@[c].unwrap().queue@[k]) == (if c == cid {
        oldq[k + 1]
    } else {
        oldp.condvars@[c].unwrap().queue@[k]
    }) && newp.condvars@[c].unwrap().queue@[k].tid != e.tid by {
        if c == cid {
            assert(newp.condvars@[c].unwrap().queue@[k] == oldq[k + 1]);
            assert(oldq[k + 1].tid != oldq[0].tid);
        } else {
            assert(oldp.condvars@[c].unwrap().queue@[k].tid != oldq[0].tid);
        }
    }
    if oldp.mutex_cls.available@[id] > 0 {
        // granted: the waiter woke, the matrices moved one unit
        assert(ndv2 == ndv);
        assert(newp.threads@ == oldp.threads@.update(
            tid,
            Some(
                (TaskControlBlock { task_status: TaskStatus::Ready, ..oldp.threads@[tid].unwrap() }),
            ),
        ));
        assert forall|t: int, r2: int|
            0 <= t < n && 0 <= r2 < newp.mutex_cls.slots@.len() && (#[trigger] ndv2[t][r2])
                >= 1 implies newp.threads@[t] is Some && newp.threads@[t].unwrap().task_status
            == TaskStatus::Blocked by {
            assert(t != tid);
            assert(newp.threads@[t] == oldp.threads@[t]);
        }
        assert forall|t: int, r2: int|
            0 <= t < n && 0 <= r2 < newp.sem_cls.slots@.len() && (
            #[trigger] newp.sem_cls.need.deep_view()[t][r2]) >= 1 implies newp.threads@[t] is Some
            && newp.threads@[t].unwrap().task_status == TaskStatus::Blocked by {
            assert(t != tid);
            assert(newp.threads@[t] == oldp.threads@[t]);
        }
        assert forall|c: int, k: int|
            0 <= c < newp.condvars@.len() && newp.condvars@[c] is Some && 0 <= k
                < newp.condvars@[c].unwrap().queue@.len() implies {
            let e2 = (#[trigger] newp.condvars@[c].unwrap().queue@[k]);
            &&& e2.tid < n
            &&& newp.threads@[e2.tid as int] is Some
            &&& newp.threads@[e2.tid as int].unwrap().task_status == TaskStatus::Blocked
            &&& e2.mutex_id < newp.mutex_cls.slots@.len()
            &&& newp.mutex_cls.slots@[e2.mutex_id as int] is Some
        } by {
            let e2 = newp.condvars@[c].unwrap().queue@[k];
            assert(e2.tid != e.tid);
            assert(newp.threads@[e2.tid as int] == oldp.threads@[e2.tid as int]);
        }
        assert forall|c: int, k: int, r2: int|
            0 <= c < newp.condvars@.len() && newp.condvars@[c] is Some && 0 <= k
                < newp.condvars@[c].unwrap().queue@.len() && 0 <= r2
                < newp.mutex_cls.slots@.len() implies #[trigger] ndv2[newp.condvars@[c].unwrap().queue@[k].tid as int][r2]
            == 0 by {
            let e2 = newp.condvars@[c].unwrap().queue@[k];
            if c == cid {
                assert(oldp.mutex_cls.need.deep_view()[oldq[k + 1].tid as int][r2] == 0);
            } else {
                assert(oldp.mutex_cls.need.deep_view()[e2.tid as int][r2] == 0);
            }
        }
        assert forall|c: int, k: int, r2: int|
            0 <= c < newp.condvars@.len() && newp.condvars@[c] is Some && 0 <= k
                < newp.condvars@[c].unwrap().queue@.len() && 0 <= r2
                < newp.sem_cls.slots@.len() implies #[trigger] newp.sem_cls.need.deep_view()[newp.condvars@[c].unwrap().queue@[k].tid as int][r2]
            == 0 by {
            let e2 = newp.condvars@[c].unwrap().queue@[k];
            if c == cid {
                assert(oldp.sem_cls.need.deep_view()[oldq[k + 1].tid as int][r2] == 0);
            } else {
                assert(oldp.sem_cls.need.deep_view()[e2.tid as int][r2] == 0);
            }
        }
        assert forall|c1: int, k1: int, c2: int, k2: int|
            0 <= c1 < newp.condvars@.len() && newp.condvars@[c1] is Some && 0 <= k1
                < newp.condvars@[c1].unwrap().queue@.len() && 0 <= c2 < newp.condvars@.len()
                && newp.condvars@[c2] is Some && 0 <= k2 < newp.condvars@[c2].unwrap().queue@.len()
                && (c1 != c2 || k1 != k2) implies (
        #[trigger] newp.condvars@[c1].unwrap().queue@[k1]).tid != (
        #[trigger] newp.condvars@[c2].unwrap().queue@[k2]).tid by {
            let f1 = if c1 == cid {
                (cid, k1 + 1)
            } else {
                (c1, k1)
            };
            let f2 = if c2 == cid {
                (cid, k2 + 1)
            } else {
                (c2, k2)
            };
            assert(oldp.condvars@[f1.0].unwrap().queue@[f1.1].tid
                != oldp.condvars@[f2.0].unwrap().queue@[f2.1].tid);
        }
        assert(proc_wf(newp));
    } else {
        // no free unit: the waiter stays blocked, now parked on the mutex
        assert(ndv2 == mat_set(ndv, tid, id, 1));
        assert(newp.threads@ == oldp.threads@);
        assert(oldp.threads@[tid].unwrap().task_status == TaskStatus::Blocked);
        assert forall|t: int, r2: int|
            0 <= t < n && 0 <= r2 < newp.mutex_cls.slots@.len() && (#[trigger] ndv2[t][r2])
                >= 1 implies newp.threads@[t] is Some && newp.threads@[t].unwrap().task_status
            == TaskStatus::Blocked by {
            if t != tid {
                assert(ndv2[t] == ndv[t]);
            }
        }
        assert forall|t: int, r1: int, r2: int|
            0 <= t < n && 0 <= r1 < newp.mutex_cls.slots@.len() && 0 <= r2
                < newp.mutex_cls.slots@.len() && r1 != r2 implies (#[trigger] ndv2[t][r1]) == 0
            || (#[trigger] ndv2[t][r2]) == 0 by {
            if t == tid {
                if r1 != id {
                    assert(ndv2[t][r1] == ndv[t][r1] == 0);
                } else {
                    assert(ndv2[t][r2] == ndv[t][r2] == 0);
                }
            } else {
                assert(ndv2[t] == ndv[t]);
            }
        }
        assert forall|t: int, r1: int, r2: int|
            0 <= t < n && 0 <= r1 < newp.mutex_cls.slots@.len() && 0 <= r2
                < newp.sem_cls.slots@.len() implies (#[trigger] ndv2[t][r1]) == 0 || (
        #[trigger] newp.sem_cls.need.deep_view()[t][r2]) == 0 by {
            if t == tid {
                assert(newp.sem_cls.need.deep_view()[t][r2] == 0);
            } else {
                assert(ndv2[t] == ndv[t]);
            }
        }
        assert forall|c: int, k: int|
            0 <= c < newp.condvars@.len() && newp.condvars@[c] is Some && 0 <= k
                < newp.condvars@[c].unwrap().queue@.len() implies {
            let e2 = (#[trigger] newp.condvars@[c].unwrap().queue@[k]);
            &&& e2.tid < n
            &&& newp.threads@[e2.tid as int] is Some
            &&& newp.threads@[e2.tid as int].unwrap().task_status == TaskStatus::Blocked
            &&& e2.mutex_id < newp.mutex_cls.slots@.len()
            &&& newp.mutex_cls.slots@[e2.mutex_id as int] is Some
        } by {
            let e2 = newp.condvars@[c].unwrap().queue@[k];
            assert(e2.tid != e.tid);
        }
        assert forall|c: int, k: int, r2: int|
            0 <= c < newp.condvars@.len() && newp.condvars@[c] is Some && 0 <= k
                < newp.condvars@[c].unwrap().queue@.len() && 0 <= r2
                < newp.mutex_cls.slots@.len() implies #[trigger] ndv2[newp.condvars@[c].unwrap().queue@[k].tid as int][r2]
            == 0 by {
            let e2 = newp.condvars@[c].unwrap().queue@[k];
            assert(e2.tid != e.tid);
            assert(ndv2[e2.tid as int] == ndv[e2.tid as int]);
            if c == cid {
                assert(oldp.mutex_cls.need.deep_view()[oldq[k + 1].tid as int][r2] == 0);
            } else {
                assert(oldp.mutex_cls.need.deep_view()[e2.tid as int][r2] == 0);
            }
        }
        assert forall|c: int, k: int, r2: int|
            0 <= c < newp.condvars@.len() && newp.condvars@[c] is Some && 0 <= k
                < newp.condvars@[c].unwrap().queue@.len() && 0 <= r2
                < newp.sem_cls.slots@.len() implies #[trigger] newp.sem_cls.need.deep_view()[newp.condvars@[c].unwrap().queue@[k].tid as int][r2]
            == 0 by {
            let e2 = newp.condvars@[c].unwrap().queue@[k];
            if c == cid {
                assert(oldp.sem_cls.need.deep_view()[oldq[k + 1].tid as int][r2] == 0);
            } else {
                assert(oldp.sem_cls.need.deep_view()[e2.tid as int][r2] == 0);
            }
        }
        assert forall|c1: int, k1: int, c2: int, k2: int|
            0 <= c1 < newp.condvars@.len() && newp.condvars@[c1] is Some && 0 <= k1
                < newp.condvars@[c1].unwrap().queue@.len() && 0 <= c2 < newp.condvars@.len()
                && newp.condvars@[c2] is Some && 0 <= k2 < newp.condvars@[c2].unwrap().queue@.len()
                && (c1 != c2 || k1 != k2) implies (
        #[trigger] newp.condvars@[c1].unwrap().queue@[k1]).tid != (
        #[trigger] newp.condvars@[c2].unwrap().queue@[k2]).tid by {
            let f1 = if c1 == cid {
                (cid, k1 + 1)
            } else {
                (c1, k1)
            };
            let f2 = if c2 == cid {
                (cid, k2 + 1)
            } else {
                (c2, k2)
            };
            assert(oldp.condvars@[f1.0].unwrap().queue@[f1.1].tid
                != oldp.condvars@[f2.0].unwrap().queue@[f2.1].tid);
        }
        assert(proc_wf(newp));
    }
}

/// Wake one waiter of condition variable `condvar_id`, if any: the
/// head of its queue leaves the queue and tries to take back the mutex
/// it released on entering the wait — at once when the mutex is free,
/// else by parking on it.  Returns -1 for an unknown condition
/// variable, else 0 (also when nobody waited).
pub fn sys_condvar_signal(p: &mut Process, condvar_id: usize) -> (r: isize)
    requires
        proc_wf(*old(p)),
    ensures
        proc_wf(*final(p)),
        r == -1 || r == 0,
        (r == -1) <==> !((condvar_id as int) < old(p).condvars@.len() && old(p).condvars@[condvar_id as int] is Some),
        r == -1 ==> proc_eq(*final(p), *old(p)),
        (r == 0 && old(p).condvars@[condvar_id as int].unwrap().queue@.len() == 0) ==> proc_eq(
            *final(p),
            *old(p),
        ),
        (r == 0 && old(p).condvars@[condvar_id as int].unwrap().queue@.len() > 0) ==> {
            let e = old(p).condvars@[condvar_id as int].unwrap().queue@[0];
            &&& final(p).condvars@[condvar_id as int].unwrap().queue@ == old(p).condvars@[condvar_id as int].unwrap().queue@.remove(0)
            &&& (forall|c: int|
                0 <= c < final(p).condvars@.len() && c != condvar_id ==> (#[trigger] final(p).condvars@[c]) == old(p).condvars@[c])
            &&& grant_outcome(
                old(p).mutex_cls,
                old(p).threads@,
                final(p).mutex_cls,
                final(p).threads@,
                e.tid as int,
                e.mutex_id as int,
            )
            &&& final(p).sem_cls == old(p).sem_cls
        },
{
    if condvar_id >= p.condvars.len() {
        return -1;
    }
    match &p.condvars[condvar_id] {
        Some(cv) => {
            if cv.queue.len() == 0 {
                return 0;
            }
        },
        None => {
            return -1;
        },
    }
    let e: CondWaiter;
    match &mut p.condvars[condvar_id] {
        Some(cv) => {
            e = cv.queue.remove(0);
        },
        None => {
            proof {
                assert(false);
            }
            e = CondWaiter { tid: 0, mutex_id: 0 };
        },
    }
    proof {
        assert(e == old(p).condvars@[condvar_id as int].unwrap().queue@[0]);
        assert(e.tid < p.threads@.len());
        assert(e.mutex_id < p.mutex_cls.slots@.len());
        assert(p.mutex_cls.slots@[e.mutex_id as int] is Some);
        assert forall|r2: int|
            0 <= r2 < p.mutex_cls.slots@.len() implies p.mutex_cls.need.deep_view()[e.tid as int][r2]
            == 0 by {
            assert(old(p).mutex_cls.need.deep_view()[old(p).condvars@[condvar_id as int].unwrap().queue@[0].tid as int][r2]
                == 0);
        }
    }
    p.mutex_cls.class_grant_or_wait(&mut p.threads, e.tid, e.mutex_id);
    proof {
        lemma_wf_after_signal(*old(p), *p, condvar_id as int, e);
    }
    0
}

/// Atomically release mutex `mutex_id` and park the calling thread on
/// condition variable `condvar_id`; a later signal re-acquires the
/// mutex for it.  Returns -1 for an unknown condition variable, an
/// unknown mutex, or a mutex the thread does not hold (nothing changes
/// then); else 0.
pub fn sys_condvar_wait(p: &mut Process, tid: usize, condvar_id: usize, mutex_id: usize) -> (r:
    isize)
    requires
        proc_wf(*old(p)),
        thread_running(*old(p), tid as int),
    ensures
        proc_wf(*final(p)),
        r == -1 || r == 0,
        (r == 0) <==> ((condvar_id as int) < old(p).condvars@.len() && old(p).condvars@[condvar_id as int] is Some && (mutex_id as int) < old(p).mutex_cls.slots@.len()
            && old(p).mutex_cls.slots@[mutex_id as int] is Some && old(p).mutex_cls.allocation.deep_view()[tid as int][mutex_id as int] >= 1),
        r == -1 ==> proc_eq(*final(p), *old(p)),
        r == 0 ==> {
            &&& (exists|mid: Seq<Option<TaskControlBlock>>|
                {
                    &&& #[trigger] release_outcome(
                        old(p).mutex_cls,
                        old(p).threads@,
                        final(p).mutex_cls,
                        mid,
                        tid as int,
                        mutex_id as int,
                        0,
                    )
                    &&& final(p).threads@ == mid.update(
                        tid as int,
                        Some(
                            (TaskControlBlock {
                                task_status: TaskStatus::Blocked,
                                ..mid[tid as int].unwrap()
                            }),
                        ),
                    )
                })
            &&& final(p).threads@[tid as int] is Some
            &&& final(p).threads@[tid as int].unwrap().task_status == TaskStatus::Blocked
            &&& final(p).condvars@[condvar_id as int].unwrap().queue@ == old(p).condvars@[condvar_id as int].unwrap().queue@.push(
                CondWaiter { tid, mutex_id },
            )
            &&& (forall|c: int|
                0 <= c < final(p).condvars@.len() && c != condvar_id ==> (#[trigger] final(p).condvars@[c]) == old(p).condvars@[c])
            &&& final(p).sem_cls == old(p).sem_cls
        },
{
    if condvar_id >= p.condvars.len() {
        return -1;
    }
    if p.condvars[condvar_id].is_none() {
        return -1;
    }
    let rel = p.mutex_cls.class_release(&mut p.threads, tid, mutex_id);
    if rel != 0 {
        return -1;
    }
    proof {
        lemma_wf_after_mutex_release(*old(p), *p, tid as int, mutex_id as int, rel);
    }
    let ghost mid = *p;
    match &mut p.condvars[condvar_id] {
        Some(cv) => {
            cv.queue.push(CondWaiter { tid, mutex_id });
        },
        None => {},
    }
    match &mut p.threads[tid] {
        Some(tc) => {
            tc.task_status = TaskStatus::Blocked;
        },
        None => {},
    }
    proof {
        lemma_wf_after_cv_park(*old(p), mid, *p, tid as int, condvar_id as int, mutex_id as int);
    }
    0
}

/// After `condvar_wait` released the mutex (state `midp`) and then
/// parked the caller on the condition variable, the process invariant
/// still holds: the caller, having been running, had no pending request
/// and sat in no queue, and it still holds none after the release.
#[verifier::rlimit(100)]
proof fn lemma_wf_after_cv_park(oldp: Process, midp: Process, newp: Process, tid: int, cid: int, id: int)
    requires
        proc_wf(oldp),
        proc_wf(midp),
        thread_running(oldp, tid),
        tid <= usize::MAX,
        0 <= id <= usize::MAX,
        0 <= cid < oldp.condvars@.len(),
        oldp.condvars@[cid] is Some,
        0 <= id < oldp.mutex_cls.slots@.len(),
        oldp.mutex_cls.slots@[id] is Some,
        midp.condvars@ == oldp.condvars@,
        midp.threads@.len() == oldp.threads@.len(),
        midp.sem_cls == oldp.sem_cls,
        midp.space == oldp.space,
        midp.pid == oldp.pid,
        midp.priority == oldp.priority,
        release_outcome(
            oldp.mutex_cls,
            oldp.threads@,
            midp.mutex_cls,
            midp.threads@,
            tid,
            id,
            0,
        ),
        newp.condvars@.len() == midp.condvars@.len(),
        newp.condvars@[cid] is Some,
        newp.condvars@[cid].unwrap().queue@ == midp.condvars@[cid].unwrap().queue@.push(
            CondWaiter { tid: tid as usize, mutex_id: id as usize },
        ),
        forall|c: int|
            0 <= c < newp.condvars@.len() && c != cid ==> (#[trigger] newp.condvars@[c]) == midp.condvars@[c],
        newp.threads@ == midp.threads@.update(
            tid,
            Some(
                (TaskControlBlock {
                    task_status: TaskStatus::Blocked,
                    ..midp.threads@[tid].unwrap()
                }),
            ),
        ),
        newp.mutex_cls == midp.mutex_cls,
        newp.sem_cls == midp.sem_cls,
        newp.space == midp.space,
        newp.pid == midp.pid,
        newp.priority == midp.priority,
    ensures
        proc_wf(newp),
{
    lemma_running_need_zero(oldp, oldp.mutex_cls, tid);
    lemma_running_need_zero(oldp, oldp.sem_cls, tid);
    let n = oldp.threads@.len() as int;
    let ndv = oldp.mutex_cls.need.deep_view();
    let ndvm = midp.mutex_cls.need.deep_view();
    // the release never touched the caller's need row
    assert forall|r2: int| 0 <= r2 < midp.mutex_cls.slots@.len() implies ndvm[tid][r2] == 0 by {
        if exists|w: int| 0 <= w < n && (#[trigger] ndv[w])[id] >= 1 {
            let w = choose|w: int|
                {
                    &&& 0 <= w < n
                    &&& (#[trigger] ndv[w])[id] >= 1
                    &&& (forall|w2: int| 0 <= w2 < w ==> ndv[w2][id] == 0)
                    &&& ndvm == mat_set(ndv, w, id, (ndv[w][id] - 1) as usize)
                    &&& midp.threads@ == oldp.threads@.update(
                        w,
                        Some(
                            (TaskControlBlock {
                                task_status: TaskStatus::Ready,
                                ..oldp.threads@[w].unwrap()
                            }),
                        ),
                    )
                };
            assert(w != tid);
            assert(ndvm[tid] == ndv[tid]);
        } else {
            assert(ndvm == ndv);
        }
    }
    // nor was the caller woken: it stayed running until parked now
    assert(midp.threads@[tid] == oldp.threads@[tid]) by {
        if exists|w: int| 0 <= w < n && (#[trigger] ndv[w])[id] >= 1 {
            let w = choose|w: int|
                {
                    &&& 0 <= w < n
                    &&& (#[trigger] ndv[w])[id] >= 1
                    &&& (forall|w2: int| 0 <= w2 < w ==> ndv[w2][id] == 0)
                    &&& midp.threads@ == oldp.threads@.update(
                        w,
                        Some(
                            (TaskControlBlock {
                                task_status: TaskStatus::Ready,
                                ..oldp.threads@[w].unwrap()
                            }),
                        ),
                    )
                };
            assert(w != tid);
        }
    }
    let ndv2 = newp.mutex_cls.need.deep_view();
    assert(ndv2 == ndvm);
    assert forall|t: int, r2: int|
        0 <= t < n && 0 <= r2 < newp.mutex_cls.slots@.len() && (#[trigger] ndv2[t][r2])
            >= 1 implies newp.threads@[t] is Some && newp.threads@[t].unwrap().task_status
        == TaskStatus::Blocked by {
        if t != tid {
            assert(newp.threads@[t] == midp.threads@[t]);
        }
    }
    assert forall|t: int, r2: int|
        0 <= t < n && 0 <= r2 < newp.sem_cls.slots@.len() && (
        #[trigger] newp.sem_cls.need.deep_view()[t][r2]) >= 1 implies newp.threads@[t] is Some
        && newp.threads@[t].unwrap().task_status == TaskStatus::Blocked by {
        if t != tid {
            assert(newp.threads@[t] == midp.threads@[t]);
        } else {
            assert(newp.sem_cls.need.deep_view()[t][r2] == oldp.sem_cls.need.deep_view()[t][r2]
                == 0);
        }
    }
    // the caller joins the condition-variable queue with empty need rows
    assert forall|c: int, k: int|
        0 <= c < newp.condvars@.len() && newp.condvars@[c] is Some && 0 <= k
            < newp.condvars@[c].unwrap().queue@.len() implies {
        let e2 = (#[trigger] newp.condvars@[c].unwrap().queue@[k]);
        &&& e2.tid < n
        &&& newp.threads@[e2.tid as int] is Some
        &&& newp.threads@[e2.tid as int].unwrap().task_status == TaskStatus::Blocked
        &&& e2.mutex_id < newp.mutex_cls.slots@.len()
        &&& newp.mutex_cls.slots@[e2.mutex_id as int] is Some
    } by {
        let e2 = newp.condvars@[c].unwrap().queue@[k];
        if c == cid && k == newp.condvars@[c].unwrap().queue@.len() - 1 {
            assert(e2.tid == tid);
            assert(newp.threads@[tid].unwrap().task_status == TaskStatus::Blocked);
            assert(midp.mutex_cls.slots@ == oldp.mutex_cls.slots@);
        } else {
            assert(e2 == midp.condvars@[c].unwrap().queue@[k]);
            assert(midp.threads@[e2.tid as int] is Some && midp.threads@[e2.tid as int].unwrap().task_status
                == TaskStatus::Blocked);
            assert(e2.tid != tid);
            assert(newp.threads@[e2.tid as int] == midp.threads@[e2.tid as int]);
        }
    }
    assert forall|c: int, k: int, r2: int|
        0 <= c < newp.condvars@.len() && newp.condvars@[c] is Some && 0 <= k
            < newp.condvars@[c].unwrap().queue@.len() && 0 <= r2
            < newp.mutex_cls.slots@.len() implies #[trigger] ndv2[newp.condvars@[c].unwrap().queue@[k].tid as int][r2]
        == 0 by {
        let e2 = newp.condvars@[c].unwrap().queue@[k];
        if c == cid && k == newp.condvars@[c].unwrap().queue@.len() - 1 {
            assert(ndv2[tid][r2] == 0);
        } else {
            assert(e2 == midp.condvars@[c].unwrap().queue@[k]);
            assert(midp.mutex_cls.need.deep_view()[midp.condvars@[c].unwrap().queue@[k].tid as int][r2]
                == 0);
            assert(midp.mutex_cls.need.deep_view()[e2.tid as int][r2] == 0);
        }
    }
    assert forall|c: int, k: int, r2: int|
        0 <= c < newp.condvars@.len() && newp.condvars@[c] is Some && 0 <= k
            < newp.condvars@[c].unwrap().queue@.len() && 0 <= r2
            < newp.sem_cls.slots@.len() implies #[trigger] newp.sem_cls.need.deep_view()[newp.condvars@[c].unwrap().queue@[k].tid as int][r2]
        == 0 by {
        let e2 = newp.condvars@[c].unwrap().queue@[k];
        if c == cid && k == newp.condvars@[c].unwrap().queue@.len() - 1 {
            assert(newp.sem_cls.need.deep_view()[tid][r2] == oldp.sem_cls.need.deep_view()[tid][r2]
                == 0);
        } else {
            assert(e2 == midp.condvars@[c].unwrap().queue@[k]);
            assert(midp.sem_cls.need.deep_view()[midp.condvars@[c].unwrap().queue@[k].tid as int][r2]
                == 0);
            assert(midp.sem_cls.need.deep_view()[e2.tid as int][r2] == 0);
        }
    }
    assert forall|c1: int, k1: int, c2: int, k2: int|
        0 <= c1 < newp.condvars@.len() && newp.condvars@[c1] is Some && 0 <= k1
            < newp.condvars@[c1].unwrap().queue@.len() && 0 <= c2 < newp.condvars@.len()
            && newp.condvars@[c2] is Some && 0 <= k2 < newp.condvars@[c2].unwrap().queue@.len()
            && (c1 != c2 || k1 != k2) implies (
    #[trigger] newp.condvars@[c1].unwrap().queue@[k1]).tid != (
    #[trigger] newp.condvars@[c2].unwrap().queue@[k2]).tid by {
        let last = newp.condvars@[cid].unwrap().queue@.len() - 1;
        let one_new = c1 == cid && k1 == last;
        let two_new = c2 == cid && k2 == last;
        if one_new && !two_new {
            let e2 = midp.condvars@[c2].unwrap().queue@[k2];
            assert(midp.threads@[e2.tid as int].unwrap().task_status == TaskStatus::Blocked);
            assert(e2.tid != tid);
        } else if !one_new && two_new {
            let e1 = midp.condvars@[c1].unwrap().queue@[k1];
            assert(midp.threads@[e1.tid as int].unwrap().task_status == TaskStatus::Blocked);
            assert(e1.tid != tid);
        } else if !one_new && !two_new {
            assert(newp.condvars@[c1].unwrap().queue@[k1]
                == midp.condvars@[c1].unwrap().queue@[k1]);
            assert(newp.condvars@[c2].unwrap().queue@[k2]
                == midp.condvars@[c2].unwrap().queue@[k2]);
        }
    }
    assert(proc_wf(newp));
}

} // verus!
