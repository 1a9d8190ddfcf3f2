use oscore::banker::banker_safe;
use oscore::mem::{AddressSpace, PageTable};
use oscore::process::Process;
use oscore::sync::DEADLOCK_ERR;
use oscore::syssync::{
    sys_condvar_create, sys_condvar_signal, sys_condvar_wait, sys_enable_deadlock_detect,
    sys_mutex_create, sys_mutex_lock, sys_mutex_unlock, sys_semaphore_create, sys_semaphore_down,
    sys_semaphore_up, sys_sleep,
};
use oscore::task::TaskStatus;

fn empty_space() -> AddressSpace {
    AddressSpace {
        regions: Vec::new(),
        heap_bottom: 0x8000,
        brk: 0x8000,
        page_table: PageTable { entries: Vec::new() },
    }
}

/// A process whose main thread (tid 0) is running.
fn running_proc() -> Process {
    let mut p = Process::make(0, None, empty_space());
    p.schedule_thread(0);
    p
}

/// Add one more running thread and return its id.
fn add_running_thread(p: &mut Process) -> usize {
    let tid = p.spawn_thread();
    p.schedule_thread(tid);
    tid
}

fn status_of(p: &Process, tid: usize) -> TaskStatus {
    p.threads[tid].as_ref().unwrap().task_status
}

/// Free units plus units held by every thread must equal the capacity,
/// for each slot of both classes.
fn assert_conservation(p: &Process) {
    for r in 0..p.mutex_cls.slots.len() {
        let held: usize = p.mutex_cls.allocation.iter().map(|row| row[r]).sum();
        assert_eq!(p.mutex_cls.available[r] + held, p.mutex_cls.capacity[r]);
    }
    for r in 0..p.sem_cls.slots.len() {
        let held: usize = p.sem_cls.allocation.iter().map(|row| row[r]).sum();
        assert_eq!(p.sem_cls.available[r] + held, p.sem_cls.capacity[r]);
    }
}

#[test]
fn mutex_create_assigns_slots_in_order() {
    let mut p = running_proc();
    assert_eq!(sys_mutex_create(&mut p, true), 0);
    assert_eq!(sys_mutex_create(&mut p, false), 1);
    assert_eq!(p.mutex_cls.slots[0], Some(true));
    assert_eq!(p.mutex_cls.slots[1], Some(false));
    assert_eq!(p.mutex_cls.capacity[0], 1);
    assert_conservation(&p);
}

#[test]
fn mutex_lock_and_unlock_move_the_unit() {
    let mut p = running_proc();
    assert_eq!(sys_mutex_create(&mut p, true), 0);
    assert_eq!(sys_mutex_lock(&mut p, 0, 0), 0);
    assert_eq!(p.mutex_cls.available[0], 0);
    assert_eq!(p.mutex_cls.allocation[0][0], 1);
    assert_conservation(&p);
    assert_eq!(sys_mutex_unlock(&mut p, 0, 0), 0);
    assert_eq!(p.mutex_cls.available[0], 1);
    assert_eq!(p.mutex_cls.allocation[0][0], 0);
    assert_conservation(&p);
}

#[test]
fn mutex_errors_on_unknown_id_or_unheld_unit() {
    let mut p = running_proc();
    assert_eq!(sys_mutex_lock(&mut p, 0, 3), -1);
    assert_eq!(sys_mutex_unlock(&mut p, 0, 3), -1);
    assert_eq!(sys_mutex_create(&mut p, true), 0);
    // releasing a mutex the thread never took
    assert_eq!(sys_mutex_unlock(&mut p, 0, 0), -1);
}

#[test]
fn contended_mutex_parks_then_hands_over() {
    let mut p = running_proc();
    let t1 = add_running_thread(&mut p);
    assert_eq!(sys_mutex_create(&mut p, true), 0);
    assert_eq!(sys_mutex_lock(&mut p, 0, 0), 0);
    // the second thread parks on the held mutex
    assert_eq!(sys_mutex_lock(&mut p, t1, 0), 0);
    assert!(matches!(status_of(&p, t1), TaskStatus::Blocked));
    assert_eq!(p.mutex_cls.need[t1][0], 1);
    assert_conservation(&p);
    // the unlock hands the mutex straight to the waiter and wakes it
    assert_eq!(sys_mutex_unlock(&mut p, 0, 0), 0);
    assert!(matches!(status_of(&p, t1), TaskStatus::Ready));
    assert_eq!(p.mutex_cls.allocation[t1][0], 1);
    assert_eq!(p.mutex_cls.need[t1][0], 0);
    assert_eq!(p.mutex_cls.available[0], 0);
    assert_conservation(&p);
}

#[test]
fn crossed_mutexes_with_detection_refuse_the_closing_request() {
    let mut p = running_proc();
    let t1 = add_running_thread(&mut p);
    assert_eq!(sys_mutex_create(&mut p, true), 0);
    assert_eq!(sys_mutex_create(&mut p, true), 1);
    assert_eq!(sys_enable_deadlock_detect(&mut p, 1), 0);
    // each thread holds one mutex
    assert_eq!(sys_mutex_lock(&mut p, 0, 0), 0);
    assert_eq!(sys_mutex_lock(&mut p, t1, 1), 0);
    // requesting the other's mutex is still safe for the first requester
    assert_eq!(sys_mutex_lock(&mut p, 0, 1), 0);
    assert!(matches!(status_of(&p, 0), TaskStatus::Blocked));
    // closing the cycle would deadlock: refused before blocking
    assert_eq!(sys_mutex_lock(&mut p, t1, 0), DEADLOCK_ERR);
    assert!(matches!(status_of(&p, t1), TaskStatus::Running));
    assert_eq!(p.mutex_cls.need[t1][0], 0);
    assert_conservation(&p);
}

#[test]
fn crossed_mutexes_without_detection_block_instead() {
    let mut p = running_proc();
    let t1 = add_running_thread(&mut p);
    assert_eq!(sys_mutex_create(&mut p, true), 0);
    assert_eq!(sys_mutex_create(&mut p, true), 1);
    assert_eq!(sys_mutex_lock(&mut p, 0, 0), 0);
    assert_eq!(sys_mutex_lock(&mut p, t1, 1), 0);
    assert_eq!(sys_mutex_lock(&mut p, 0, 1), 0);
    // no detection: the request reports no error and the thread parks
    assert_eq!(sys_mutex_lock(&mut p, t1, 0), 0);
    assert!(matches!(status_of(&p, 0), TaskStatus::Blocked));
    assert!(matches!(status_of(&p, t1), TaskStatus::Blocked));
    assert_conservation(&p);
}

#[test]
fn detection_toggle_follows_the_argument() {
    let mut p = running_proc();
    assert_eq!(sys_enable_deadlock_detect(&mut p, 1), 0);
    assert!(p.deadlock_detect);
    assert_eq!(sys_enable_deadlock_detect(&mut p, 0), 0);
    assert!(!p.deadlock_detect);
    assert_eq!(sys_enable_deadlock_detect(&mut p, 2), 0);
    assert!(!p.deadlock_detect);
}

#[test]
fn semaphore_counts_units_and_parks_when_empty() {
    let mut p = running_proc();
    let t1 = add_running_thread(&mut p);
    let t2 = add_running_thread(&mut p);
    assert_eq!(sys_semaphore_create(&mut p, 2), 0);
    assert_eq!(sys_semaphore_down(&mut p, 0, 0), 0);
    assert_eq!(sys_semaphore_down(&mut p, t1, 0), 0);
    assert_eq!(p.sem_cls.available[0], 0);
    // no unit left: the third taker parks
    assert_eq!(sys_semaphore_down(&mut p, t2, 0), 0);
    assert!(matches!(status_of(&p, t2), TaskStatus::Blocked));
    assert_conservation(&p);
    // a release hands the unit to the parked thread
    assert_eq!(sys_semaphore_up(&mut p, 0, 0), 0);
    assert!(matches!(status_of(&p, t2), TaskStatus::Ready));
    assert_eq!(p.sem_cls.allocation[t2][0], 1);
    assert_conservation(&p);
}

#[test]
fn semaphore_up_without_held_unit_fails() {
    let mut p = running_proc();
    assert_eq!(sys_semaphore_create(&mut p, 1), 0);
    assert_eq!(sys_semaphore_up(&mut p, 0, 0), -1);
    assert_eq!(sys_semaphore_down(&mut p, 0, 5), -1);
}

#[test]
fn condvar_wait_releases_mutex_and_signal_returns_it() {
    let mut p = running_proc();
    let t1 = add_running_thread(&mut p);
    assert_eq!(sys_mutex_create(&mut p, true), 0);
    assert_eq!(sys_condvar_create(&mut p), 0);
    assert_eq!(sys_mutex_lock(&mut p, 0, 0), 0);
    // the waiter releases the mutex and parks on the condition variable
    assert_eq!(sys_condvar_wait(&mut p, 0, 0, 0), 0);
    assert!(matches!(status_of(&p, 0), TaskStatus::Blocked));
    assert_eq!(p.mutex_cls.available[0], 1);
    assert_conservation(&p);
    // another thread can take the mutex meanwhile
    assert_eq!(sys_mutex_lock(&mut p, t1, 0), 0);
    // a signal moves the waiter onto the mutex it must take back
    assert_eq!(sys_condvar_signal(&mut p, 0), 0);
    assert!(matches!(status_of(&p, 0), TaskStatus::Blocked));
    assert_eq!(p.mutex_cls.need[0][0], 1);
    // when the mutex frees up, the signalled waiter gets it and wakes
    assert_eq!(sys_mutex_unlock(&mut p, t1, 0), 0);
    assert!(matches!(status_of(&p, 0), TaskStatus::Ready));
    assert_eq!(p.mutex_cls.allocation[0][0], 1);
    assert_conservation(&p);
}

#[test]
fn condvar_signal_with_free_mutex_wakes_at_once() {
    let mut p = running_proc();
    assert_eq!(sys_mutex_create(&mut p, true), 0);
    assert_eq!(sys_condvar_create(&mut p), 0);
    assert_eq!(sys_mutex_lock(&mut p, 0, 0), 0);
    assert_eq!(sys_condvar_wait(&mut p, 0, 0, 0), 0);
    assert_eq!(sys_condvar_signal(&mut p, 0), 0);
    assert!(matches!(status_of(&p, 0), TaskStatus::Ready));
    assert_eq!(p.mutex_cls.allocation[0][0], 1);
    assert_conservation(&p);
}

#[test]
fn condvar_errors_and_empty_signal() {
    let mut p = running_proc();
    assert_eq!(sys_condvar_signal(&mut p, 0), -1);
    assert_eq!(sys_condvar_create(&mut p), 0);
    // nobody waits: the signal is a quiet success
    assert_eq!(sys_condvar_signal(&mut p, 0), 0);
    // waiting without holding the mutex is refused
    assert_eq!(sys_mutex_create(&mut p, true), 0);
    assert_eq!(sys_condvar_wait(&mut p, 0, 0, 0), -1);
    // unknown condition variable
    assert_eq!(sys_condvar_wait(&mut p, 0, 9, 0), -1);
}

#[test]
fn sleep_parks_with_the_wake_time() {
    let mut p = running_proc();
    assert_eq!(sys_sleep(&mut p, 0, 100, 50), 0);
    assert!(matches!(status_of(&p, 0), TaskStatus::Blocked));
    assert_eq!(p.threads[0].as_ref().unwrap().timer, 150);
}

#[test]
fn banker_accepts_a_completable_state() {
    // one thread holds a unit, the other needs one: still completable
    let available = vec![0usize];
    let allocation = vec![vec![1usize], vec![0usize]];
    let need = vec![vec![0usize], vec![1usize]];
    assert!(banker_safe(&available, &allocation, &need));
}

#[test]
fn banker_rejects_a_stuck_state() {
    // two units exist, both held, and both holders need one more
    let available = vec![0usize, 0usize];
    let allocation = vec![vec![1, 0], vec![0, 1]];
    let need = vec![vec![0, 1], vec![1, 0]];
    assert!(!banker_safe(&available, &allocation, &need));
}
