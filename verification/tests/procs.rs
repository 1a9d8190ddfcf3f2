use oscore::mem::{AddressSpace, PageTable};
use oscore::process::Kernel;
use oscore::sysproc::{
    sys_exec, sys_exit, sys_fork, sys_getpid, sys_mmap, sys_set_priority, sys_spawn,
    sys_task_info, sys_waitpid, sys_yield, TaskInfo,
};
use oscore::task::TaskStatus;

fn empty_space() -> AddressSpace {
    AddressSpace {
        regions: Vec::new(),
        heap_bottom: 0x8000,
        brk: 0x8000,
        page_table: PageTable { entries: Vec::new() },
    }
}

#[test]
fn fork_links_child_and_child_returns_zero() {
    let mut k = Kernel::boot(empty_space());
    let r = sys_fork(&mut k, 0);
    assert_eq!(r, 1);
    let child = k.procs[1].as_ref().unwrap();
    assert_eq!(child.pid, 1);
    assert_eq!(child.parent, Some(0));
    assert!(!child.zombie);
    // the child's copy of the pending syscall returns 0
    assert_eq!(child.threads[0].as_ref().unwrap().task_cx.syscall_ret, 0);
    let parent = k.procs[0].as_ref().unwrap();
    assert_eq!(parent.children.len(), 1);
    assert_eq!(parent.children[0], 1);
}

#[test]
fn fork_copies_but_separates_address_spaces() {
    let mut k = Kernel::boot(empty_space());
    sys_mmap(k.procs[0].as_mut().unwrap(), 0x1000, 0x1000, 0b001);
    let r = sys_fork(&mut k, 0);
    assert_eq!(r, 1);
    // the child starts from the parent's mappings
    assert_eq!(k.procs[1].as_ref().unwrap().space.regions.len(), 1);
    // a write in one space is not visible in the other
    assert_eq!(sys_mmap(k.procs[1].as_mut().unwrap(), 0x3000, 0x1000, 0b010), 0);
    assert_eq!(k.procs[1].as_ref().unwrap().space.regions.len(), 2);
    assert_eq!(k.procs[0].as_ref().unwrap().space.regions.len(), 1);
}

#[test]
fn waitpid_without_children_reports_not_found() {
    let mut k = Kernel::boot(empty_space());
    let mut ec: i32 = 0;
    assert_eq!(sys_waitpid(&mut k, 0, -1, &mut ec), -1);
}

#[test]
fn waitpid_running_child_reports_not_ready() {
    let mut k = Kernel::boot(empty_space());
    assert_eq!(sys_fork(&mut k, 0), 1);
    let mut ec: i32 = 0;
    assert_eq!(sys_waitpid(&mut k, 0, -1, &mut ec), -2);
    assert_eq!(sys_waitpid(&mut k, 0, 1, &mut ec), -2);
}

#[test]
fn waitpid_reaps_exited_child_once() {
    let mut k = Kernel::boot(empty_space());
    assert_eq!(sys_fork(&mut k, 0), 1);
    sys_exit(&mut k, 1, 42);
    let mut ec: i32 = 0;
    assert_eq!(sys_waitpid(&mut k, 0, 1, &mut ec), 1);
    assert_eq!(ec, 42);
    assert!(k.procs[1].is_none());
    assert_eq!(k.procs[0].as_ref().unwrap().children.len(), 0);
    // the same pid a second time: gone entirely
    assert_eq!(sys_waitpid(&mut k, 0, 1, &mut ec), -1);
}

#[test]
fn waitpid_wildcard_reaps_any_zombie() {
    let mut k = Kernel::boot(empty_space());
    assert_eq!(sys_fork(&mut k, 0), 1);
    assert_eq!(sys_fork(&mut k, 0), 2);
    sys_exit(&mut k, 2, 7);
    let mut ec: i32 = 0;
    assert_eq!(sys_waitpid(&mut k, 0, -1, &mut ec), 2);
    assert_eq!(ec, 7);
    // one child left, still running
    assert_eq!(sys_waitpid(&mut k, 0, -1, &mut ec), -2);
}

#[test]
fn exit_records_code_and_orphans_children() {
    let mut k = Kernel::boot(empty_space());
    assert_eq!(sys_fork(&mut k, 0), 1);
    assert_eq!(sys_fork(&mut k, 1), 2);
    sys_exit(&mut k, 1, -3);
    let z = k.procs[1].as_ref().unwrap();
    assert!(z.zombie);
    assert_eq!(z.exit_code, -3);
    assert_eq!(z.children.len(), 0);
    // the grandchild lost its parent link
    assert_eq!(k.procs[2].as_ref().unwrap().parent, None);
}

#[test]
fn exec_replaces_space_or_fails_without_image() {
    let mut k = Kernel::boot(empty_space());
    let p = k.procs[0].as_mut().unwrap();
    sys_mmap(p, 0x1000, 0x1000, 0b001);
    let mut fresh = empty_space();
    fresh.brk = 0x9000;
    fresh.heap_bottom = 0x9000;
    assert_eq!(sys_exec(p, Some(fresh)), 0);
    assert_eq!(p.space.regions.len(), 0);
    assert_eq!(p.space.brk, 0x9000);
    assert_eq!(sys_exec(p, None), -1);
    assert_eq!(p.space.brk, 0x9000);
}

#[test]
fn spawn_builds_child_from_image_directly() {
    let mut k = Kernel::boot(empty_space());
    assert_eq!(sys_spawn(&mut k, 0, None), -1);
    assert_eq!(k.procs.len(), 1);
    let mut image = empty_space();
    image.brk = 0xA000;
    image.heap_bottom = 0xA000;
    let r = sys_spawn(&mut k, 0, Some(image));
    assert_eq!(r, 1);
    let child = k.procs[1].as_ref().unwrap();
    assert_eq!(child.parent, Some(0));
    assert_eq!(child.space.brk, 0xA000);
    assert_eq!(k.procs[0].as_ref().unwrap().children[0], 1);
}

#[test]
fn set_priority_accepts_two_and_up() {
    let mut k = Kernel::boot(empty_space());
    let p = k.procs[0].as_mut().unwrap();
    assert_eq!(sys_set_priority(p, 2), 2);
    assert_eq!(p.priority, Some(2));
    assert_eq!(sys_set_priority(p, 100), 100);
    assert_eq!(p.priority, Some(100));
    assert_eq!(sys_set_priority(p, 1), -1);
    assert_eq!(p.priority, Some(100));
    assert_eq!(sys_set_priority(p, -5), -1);
}

#[test]
fn getpid_and_yield_report_as_specified() {
    let k = Kernel::boot(empty_space());
    assert_eq!(sys_getpid(k.procs[0].as_ref().unwrap()), 0);
    assert_eq!(sys_yield(), 0);
}

#[test]
fn task_info_reports_thread_state() {
    let k = Kernel::boot(empty_space());
    let p = k.procs[0].as_ref().unwrap();
    let mut ti = TaskInfo { status: TaskStatus::UnInit, syscall_times: Vec::new(), time: 99 };
    assert_eq!(sys_task_info(p, 0, &mut ti), 0);
    assert!(matches!(ti.status, TaskStatus::Ready));
    assert_eq!(ti.time, 0);
    assert_eq!(ti.syscall_times.len(), oscore::task::MAX_SYSCALL_NUM);
    assert!(ti.syscall_times.iter().all(|&c| c == 0));
    // an unknown thread id is refused and changes nothing
    assert_eq!(sys_task_info(p, 7, &mut ti), -1);
    assert_eq!(ti.time, 0);
}
